//! The module cache: its entries and configuration, content hashes for
//! change detection, the size estimate of a cached module, and which
//! files a clean-up of the on-disk cache removes.

use vstd::prelude::*;
use sha2::Digest;
use crate::ast::Value;
use crate::resolution::{join_path, joined};
use crate::text::{append_str, chars_of, is_prefix, push_char, starts_with};

verus! {

/// The SHA-256 digest of the UTF-8 encoding of a text.
pub uninterp spec fn sha256_of_text(text: Seq<char>) -> Seq<u8>;

/// The SHA-256 digest of `content`'s UTF-8 bytes (`sha2::Sha256`, fed the
/// bytes with `update` and read with `finalize`): the digest the function
/// names, 32 bytes long.
#[verifier::external_body]
fn sha256_text(content: &str) -> (digest: Vec<u8>)
    ensures
        digest@ == sha256_of_text(content@),
        digest@.len() == 32,
{
    let mut hasher = sha2::Sha256::new();
    hasher.update(content.as_bytes());
    hasher.finalize().to_vec()
}

/// The lowercase hexadecimal digit of a value below sixteen.
pub open spec fn hex_char(d: nat) -> char {
    if d < 10 {
        ((d + 48) as u8) as char
    } else {
        ((d + 87) as u8) as char
    }
}

/// Two lowercase hexadecimal digits per byte, high nibble first.
pub open spec fn hex_text(bytes: Seq<u8>) -> Seq<char>
    decreases bytes.len(),
{
    if bytes.len() == 0 {
        Seq::empty()
    } else {
        hex_text(bytes.drop_last()) + seq![hex_char((bytes.last() / 16) as nat), hex_char((bytes.last() % 16) as nat)]
    }
}

/// The SHA-256 digest of a byte string.
pub uninterp spec fn sha256_of_bytes(bytes: Seq<u8>) -> Seq<u8>;

/// The SHA-256 digest of `content` (`sha2::Sha256`, fed the bytes with
/// `update` and read with `finalize`): the digest the function names,
/// 32 bytes long.
#[verifier::external_body]
fn sha256_bytes(content: &[u8]) -> (digest: Vec<u8>)
    ensures
        digest@ == sha256_of_bytes(content@),
        digest@.len() == 32,
{
    let mut hasher = sha2::Sha256::new();
    hasher.update(content);
    hasher.finalize().to_vec()
}

/// The lowercase hexadecimal digit of a value below sixteen.
fn hex_digit(d: u8) -> (c: char)
    requires
        d < 16,
    ensures
        c == hex_char(d as nat),
{
    if d < 10 {
        (d + 48) as char
    } else {
        (d + 87) as char
    }
}

/// Bytes as lowercase hexadecimal, two digits per byte.
pub fn hex_lower(bytes: &Vec<u8>) -> (s: String)
    ensures
        s@ == hex_text(bytes@),
        s@.len() == 2 * bytes@.len(),
{
    let mut s = String::new();
    let mut i: usize = 0;
    proof {
        assert(bytes@.take(0) =~= Seq::<u8>::empty());
    }
    while i < bytes.len()
        invariant
            i <= bytes@.len(),
            s@ == hex_text(bytes@.take(i as int)),
            s@.len() == 2 * i,
        decreases bytes@.len() - i,
    {
        let b = bytes[i];
        push_char(&mut s, hex_digit(b / 16));
        push_char(&mut s, hex_digit(b % 16));
        proof {
            let t = bytes@.take(i + 1);
            assert(t.drop_last() =~= bytes@.take(i as int));
            assert(t.last() == b);
            assert(s@ =~= hex_text(t));
        }
        i = i + 1;
    }
    proof {
        assert(bytes@.take(bytes@.len() as int) =~= bytes@);
    }
    s
}

/// The content hash of a text: its SHA-256 digest in lowercase hex.
pub fn calculate_string_hash(content: &str) -> (h: String)
    ensures
        h@ == hex_text(sha256_of_text(content@)),
        h@.len() == 64,
{
    let digest = sha256_text(content);
    hex_lower(&digest)
}

/// The SHA-256 hash of a file's bytes, in lowercase hex (64 digits).
pub fn calculate_bytes_hash(content: &[u8]) -> (h: String)
    ensures
        h@ == hex_text(sha256_of_bytes(content@)),
        h@.len() == 64,
{
    let digest = sha256_bytes(content);
    hex_lower(&digest)
}

/// Whether a module lives in the binary rather than on disk: embedded
/// sources and native standard-library structs.
pub open spec fn is_virtual_module(path: Seq<char>) -> bool {
    is_prefix("__embedded__/"@, path) || is_prefix("__stdlib__/"@, path)
}

/// The content hash of a module that has no file: the hash of its path, a
/// stable identity for the life of the binary. `None` for a module on
/// disk, whose file has to be read and hashed.
pub fn virtual_module_hash(path: &str) -> (r: Option<String>)
    ensures
        match r {
            Some(h) => is_virtual_module(path@) && h@ == hex_text(sha256_of_text(path@)),
            None => !is_virtual_module(path@),
        },
{
    if starts_with(path, "__embedded__/") || starts_with(path, "__stdlib__/") {
        Some(calculate_string_hash(path))
    } else {
        None
    }
}

/// A cached module with what the smart cache tracks about it. Times are
/// milliseconds (points in time since the Unix epoch).
pub struct ModuleCacheEntry {
    pub module: Value,
    pub file_path: Option<String>,
    pub last_modified: Option<u64>,
    pub dependencies: Vec<String>,
    pub content_hash: String,
    pub compilation_time: u64,
    pub access_count: u64,
    pub last_accessed: u64,
    pub cache_generation: u64,
    pub memory_size: usize,
}

/// The estimated memory a cached module takes: 64 bytes per field of a
/// module struct (64 for any other value), 256 per cached statement, and
/// 1024 for a cached analysis.
pub open spec fn memory_estimate(module: Value, ast_statements: Option<usize>, has_analysis: bool) -> int {
    (match module {
        Value::Struct { fields, .. } => fields@.len() * 64,
        _ => 64,
    }) + (match ast_statements {
        Some(n) => n * 256,
        None => 0,
    }) + if has_analysis {
        1024int
    } else {
        0int
    }
}

/// The estimated memory a cached module takes (see `memory_estimate`);
/// `ast_statements` is the number of statements of the cached syntax tree,
/// if one is cached.
pub fn estimate_module_memory_size(module: &Value, ast_statements: Option<usize>, has_analysis: bool) -> (size:
    usize)
    requires
        memory_estimate(*module, ast_statements, has_analysis) <= usize::MAX,
    ensures
        size == memory_estimate(*module, ast_statements, has_analysis),
{
    let base: usize = match module {
        Value::Struct { fields, .. } => fields.len() * 64,
        _ => 64,
    };
    let ast: usize = match ast_statements {
        Some(n) => n * 256,
        None => 0,
    };
    let analysis: usize = if has_analysis {
        1024
    } else {
        0
    };
    base + ast + analysis
}

/// How the module cache behaves. The clean-up interval is in milliseconds.
pub struct SmartCacheConfig {
    pub enable_persistent_cache: bool,
    pub cache_directory: String,
    pub max_cache_size_mb: usize,
    pub max_cache_entries: usize,
    pub cache_cleanup_interval: u64,
    pub enable_content_hashing: bool,
    pub enable_ast_caching: bool,
    pub enable_analysis_caching: bool,
    pub cache_compression: bool,
}

impl SmartCacheConfig {
    /// The standard configuration with the cache kept in `cache_directory`
    /// (persistent only where there is a disk): 100 MB and 1000 entries at
    /// most, a clean-up every five minutes, hashing and syntax and
    /// analysis caching on, compression off.
    pub fn standard(enable_persistent_cache: bool, cache_directory: String) -> (c: Self)
        ensures
            c.enable_persistent_cache == enable_persistent_cache,
            c.cache_directory == cache_directory,
            c.max_cache_size_mb == 100,
            c.max_cache_entries == 1000,
            c.cache_cleanup_interval == 300_000,
            c.enable_content_hashing,
            c.enable_ast_caching,
            c.enable_analysis_caching,
            !c.cache_compression,
    {
        SmartCacheConfig {
            enable_persistent_cache,
            cache_directory,
            max_cache_size_mb: 100,
            max_cache_entries: 1000,
            cache_cleanup_interval: 300_000,
            enable_content_hashing: true,
            enable_ast_caching: true,
            enable_analysis_caching: true,
            cache_compression: false,
        }
    }
}

/// What a clean-up of the on-disk cache did. The time is in milliseconds.
pub struct CacheCleanupStats {
    pub files_removed: usize,
    pub bytes_freed: usize,
    pub cleanup_time: u64,
}

impl Default for CacheCleanupStats {
    /// Nothing removed, nothing freed, no time spent.
    fn default() -> (s: Self)
        ensures
            s.files_removed == 0,
            s.bytes_freed == 0,
            s.cleanup_time == 0,
    {
        CacheCleanupStats { files_removed: 0, bytes_freed: 0, cleanup_time: 0 }
    }
}

/// A module path made safe as a file name: `/`, `\` and `.` become `_`.
pub open spec fn sanitized(path: Seq<char>) -> Seq<char>
    decreases path.len(),
{
    if path.len() == 0 {
        Seq::empty()
    } else {
        let c = path.last();
        sanitized(path.drop_last()).push(
            if c == '/' || c == '\\' || c == '.' {
                '_'
            } else {
                c
            },
        )
    }
}

/// How many bytes a file counts for: its size, or nothing when it could
/// not be read.
pub open spec fn size_of(s: Option<u64>) -> nat {
    match s {
        Some(n) => n as nat,
        None => 0,
    }
}

/// The total size of files.
pub open spec fn total_size(sizes: Seq<Option<u64>>) -> nat
    decreases sizes.len(),
{
    if sizes.len() == 0 {
        0
    } else {
        total_size(sizes.drop_last()) + size_of(sizes.last())
    }
}

/// Where removing files oldest first, from `from` on, brings what is left
/// (`current` bytes) down to `max` bytes: the index of the first file kept.
pub open spec fn first_fit(sizes: Seq<Option<u64>>, from: nat, current: int, max: nat) -> nat
    decreases sizes.len() - from,
{
    if current <= max || from >= sizes.len() {
        from
    } else {
        first_fit(sizes, from + 1, current - size_of(sizes[from as int]), max)
    }
}

/// How many of the cache files (oldest first) a clean-up removes: enough
/// to get within the entry limit, then, if the files together exceed the
/// size limit, further files in order until what is left fits (files
/// removed for the count do not lower the running size).
pub open spec fn removal_count(sizes: Seq<Option<u64>>, max_bytes: nat, max_entries: nat) -> nat {
    let by_count: nat = if sizes.len() > max_entries {
        (sizes.len() - max_entries) as nat
    } else {
        0
    };
    if total_size(sizes) > max_bytes {
        first_fit(sizes, by_count, total_size(sizes) as int, max_bytes)
    } else {
        by_count
    }
}

/// `first_fit` stays between its start and the end.
proof fn lemma_first_fit_bounds(sizes: Seq<Option<u64>>, from: nat, current: int, max: nat)
    requires
        from <= sizes.len(),
    ensures
        from <= first_fit(sizes, from, current, max) <= sizes.len(),
    decreases sizes.len() - from,
{
    if !(current <= max || from >= sizes.len()) {
        lemma_first_fit_bounds(sizes, from + 1, current - size_of(sizes[from as int]), max);
    }
}

/// The disk side of the module cache.
pub struct PersistentCacheManager {
    config: SmartCacheConfig,
    _cache_generation: u64,
    last_cleanup: u64,
}

impl PersistentCacheManager {
    /// The configuration.
    pub closed spec fn config_spec(&self) -> &SmartCacheConfig {
        &self.config
    }

    /// When the last clean-up ran (milliseconds).
    pub closed spec fn last_cleanup_spec(&self) -> u64 {
        self.last_cleanup
    }

    /// A manager for `config`, counting its last clean-up from `now`
    /// (milliseconds). The caller creates the cache directory when the
    /// persistent cache is enabled.
    pub fn new(config: SmartCacheConfig, now: u64) -> (m: Self)
        ensures
            *m.config_spec() == config,
            m.last_cleanup_spec() == now,
    {
        PersistentCacheManager { config, _cache_generation: 1, last_cleanup: now }
    }

    /// The configuration.
    pub fn config(&self) -> (c: &SmartCacheConfig)
        ensures
            *c == *self.config_spec(),
    {
        &self.config
    }

    /// The cache file of a module: the module path made safe as a file
    /// name, with the `.cache` extension, in the cache directory.
    pub fn get_cache_file_path(&self, module_name: &str) -> (p: String)
        ensures
            p@ == joined(self.config_spec().cache_directory@, sanitized(module_name@) + ".cache"@),
    {
        let cs = chars_of(module_name);
        let mut name = String::new();
        let mut i: usize = 0;
        proof {
            assert(cs@.take(0) =~= Seq::<char>::empty());
        }
        while i < cs.len()
            invariant
                i <= cs@.len(),
                name@ == sanitized(cs@.take(i as int)),
            decreases cs@.len() - i,
        {
            let c = cs[i];
            let out = if c == '/' || c == '\\' || c == '.' {
                '_'
            } else {
                c
            };
            push_char(&mut name, out);
            proof {
                let t = cs@.take(i + 1);
                assert(t.drop_last() =~= cs@.take(i as int));
                assert(t.last() == c);
            }
            i = i + 1;
        }
        proof {
            assert(cs@.take(cs@.len() as int) =~= cs@);
        }
        append_str(&mut name, ".cache");
        join_path(self.config.cache_directory.as_str(), name.as_str())
    }

    /// Whether a clean-up of the on-disk cache is due at `now`: the
    /// persistent cache is on and the clean-up interval has passed since
    /// the last one (a clock reading earlier than it counts as no time).
    pub fn cleanup_due(&self, now: u64) -> (r: bool)
        ensures
            r == (self.config_spec().enable_persistent_cache && (if now >= self.last_cleanup_spec() {
                now - self.last_cleanup_spec()
            } else {
                0
            }) >= self.config_spec().cache_cleanup_interval),
    {
        if !self.config.enable_persistent_cache {
            return false;
        }
        let elapsed: u64 = if now >= self.last_cleanup {
            now - self.last_cleanup
        } else {
            0
        };
        elapsed >= self.config.cache_cleanup_interval
    }

    /// Records that a clean-up ran at `now`.
    pub fn record_cleanup(&mut self, now: u64)
        ensures
            final(self).last_cleanup_spec() == now,
            *final(self).config_spec() == *old(self).config_spec(),
    {
        self.last_cleanup = now;
    }

    /// How many of the cache files, oldest first, a clean-up removes (see
    /// `removal_count`); `sizes` holds each file's size, `None` where it
    /// could not be read.
    pub fn files_to_remove(&self, sizes: &Vec<Option<u64>>) -> (n: usize)
        requires
            total_size(sizes@) <= usize::MAX,
            self.config_spec().max_cache_size_mb * 1024 * 1024 <= usize::MAX,
        ensures
            n == removal_count(
                sizes@,
                (self.config_spec().max_cache_size_mb * 1024 * 1024) as nat,
                self.config_spec().max_cache_entries as nat,
            ),
            n <= sizes@.len(),
    {
        let max_bytes: usize = self.config.max_cache_size_mb * 1024 * 1024;
        let max_entries = self.config.max_cache_entries;
        let mut total: usize = 0;
        let mut i: usize = 0;
        proof {
            assert(sizes@.take(0) =~= Seq::<Option<u64>>::empty());
        }
        while i < sizes.len()
            invariant
                i <= sizes@.len(),
                total == total_size(sizes@.take(i as int)),
                total_size(sizes@) <= usize::MAX,
            decreases sizes@.len() - i,
        {
            proof {
                let t = sizes@.take(i + 1);
                assert(t.drop_last() =~= sizes@.take(i as int));
                lemma_total_size_prefix(sizes@, i + 1);
            }
            match sizes[i] {
                Some(n) => {
                    total = total + n as usize;
                },
                None => {},
            }
            i = i + 1;
        }
        proof {
            assert(sizes@.take(sizes@.len() as int) =~= sizes@);
        }
        let by_count: usize = if sizes.len() > max_entries {
            sizes.len() - max_entries
        } else {
            0
        };
        if total <= max_bytes {
            return by_count;
        }
        let mut k: usize = by_count;
        let mut current: usize = total;
        proof {
            lemma_first_fit_bounds(sizes@, by_count as nat, total as int, max_bytes as nat);
            lemma_total_size_prefix(sizes@, by_count as int);
        }
        while k < sizes.len() && current > max_bytes
            invariant
                by_count <= k <= sizes@.len(),
                first_fit(sizes@, by_count as nat, total as int, max_bytes as nat) == first_fit(
                    sizes@,
                    k as nat,
                    current as int,
                    max_bytes as nat,
                ),
                current as int == total_size(sizes@) - (total_size(sizes@.take(k as int)) - total_size(
                    sizes@.take(by_count as int),
                )),
                total_size(sizes@.take(by_count as int)) <= total_size(sizes@.take(k as int)),
                total_size(sizes@.take(k as int)) <= total_size(sizes@),
                total == total_size(sizes@),
            decreases sizes@.len() - k,
        {
            proof {
                let t = sizes@.take(k + 1);
                assert(t.drop_last() =~= sizes@.take(k as int));
                lemma_total_size_prefix(sizes@, k + 1);
            }
            match sizes[k] {
                Some(n) => {
                    current = current - n as usize;
                },
                None => {},
            }
            k = k + 1;
        }
        k
    }
}

/// A prefix of the files weighs no more than all of them.
proof fn lemma_total_size_prefix(sizes: Seq<Option<u64>>, k: int)
    requires
        0 <= k <= sizes.len(),
    ensures
        total_size(sizes.take(k)) <= total_size(sizes),
    decreases sizes.len() - k,
{
    if k < sizes.len() {
        let t = sizes.take(k + 1);
        assert(t.drop_last() =~= sizes.take(k));
        lemma_total_size_prefix(sizes, k + 1);
    } else {
        assert(sizes.take(k) =~= sizes);
    }
}

} // verus!
