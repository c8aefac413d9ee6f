//! The result cache: configuration, and a bounded, evicting store for
//! per-function analysis results keyed by content hashes.

use crate::models::{Function, MirBasicBlock, MirDecl, str_eq};
use vstd::prelude::*;

verus! {

/// Configuration for cache behavior.
#[derive(Clone, Debug)]
pub struct CacheConfig {
    /// Maximum number of entries before eviction.
    pub max_entries: usize,
    /// Maximum memory usage in bytes before eviction.
    pub max_memory_bytes: usize,
    /// Evict least-recently-used entries (otherwise first-in-first-out).
    pub use_lru_eviction: bool,
    /// Validate entries against the source file's modification time.
    pub validate_file_mtime: bool,
    /// Compress stored entries.
    pub enable_compression: bool,
}

impl Default for CacheConfig {
    /// The default configuration: 1000 entries, 100 MiB, LRU eviction,
    /// modification-time validation on, compression off.
    fn default() -> (r: Self)
        ensures
            r.max_entries == 1000,
            r.max_memory_bytes == 0x6400000,
            r.use_lru_eviction,
            r.validate_file_mtime,
            !r.enable_compression,
    {
        CacheConfig {
            max_entries: 1000,
            max_memory_bytes: 100 * 1024 * 1024,
            use_lru_eviction: true,
            validate_file_mtime: true,
            enable_compression: false,
        }
    }
}

/// Whether `c` is one of the characters `str::trim` removes.
pub open spec fn is_ws_char(c: char) -> bool {
    c == ' ' || c == '\t' || c == '\n' || c == '\u{0B}' || c == '\u{0C}' || c == '\r' || c
        == '\u{85}' || c == '\u{A0}' || c == '\u{1680}' || c == '\u{2000}' || c == '\u{2001}' || c
        == '\u{2002}' || c == '\u{2003}' || c == '\u{2004}' || c == '\u{2005}' || c == '\u{2006}'
        || c == '\u{2007}' || c == '\u{2008}' || c == '\u{2009}' || c == '\u{200A}' || c
        == '\u{2028}' || c == '\u{2029}' || c == '\u{202F}' || c == '\u{205F}' || c == '\u{3000}'
}

/// `s` without leading whitespace.
pub open spec fn trim_front(s: Seq<char>) -> Seq<char>
    decreases s.len(),
{
    if s.len() == 0 {
        Seq::empty()
    } else if is_ws_char(s[0]) {
        trim_front(s.drop_first())
    } else {
        s
    }
}

/// `s` without trailing whitespace.
pub open spec fn trim_back(s: Seq<char>) -> Seq<char>
    decreases s.len(),
{
    if s.len() == 0 {
        Seq::empty()
    } else if is_ws_char(s[s.len() - 1]) {
        trim_back(s.drop_last())
    } else {
        s
    }
}

/// `s` without leading and trailing whitespace.
pub open spec fn spec_trim(s: Seq<char>) -> Seq<char> {
    trim_back(trim_front(s))
}

/// `c` with an ASCII capital letter lowered, other characters unchanged.
pub open spec fn ascii_lower_char(c: char) -> char {
    if 'A' <= c <= 'Z' {
        (((c as u32) + 32) as u8) as char
    } else {
        c
    }
}

/// `s` with every ASCII capital letter lowered.
pub open spec fn ascii_lower(s: Seq<char>) -> Seq<char> {
    s.map_values(|c: char| ascii_lower_char(c))
}

/// The trimmed, ASCII-lowercased form of a configuration value.
pub open spec fn normalized_value(s: Seq<char>) -> Seq<char> {
    ascii_lower(spec_trim(s))
}

/// Whether a configuration value spells an explicit "off": `false` or `0`
/// after trimming and lowering.
pub open spec fn is_disable_word(s: Seq<char>) -> bool {
    normalized_value(s) == seq!['f', 'a', 'l', 's', 'e'] || normalized_value(s) == seq!['0']
}

/// Lowers one character if it is an ASCII capital letter.
fn ascii_lower_char_exec(c: char) -> (r: char)
    ensures
        r == ascii_lower_char(c),
{
    if 'A' <= c && c <= 'Z' {
        (((c as u32) + 32) as u8) as char
    } else {
        c
    }
}

/// Whether `str::trim` would remove `c`.
fn is_ws_char_exec(c: char) -> (r: bool)
    ensures
        r == is_ws_char(c),
{
    c == ' ' || c == '\t' || c == '\n' || c == '\u{0B}' || c == '\u{0C}' || c == '\r' || c
        == '\u{85}' || c == '\u{A0}' || c == '\u{1680}' || c == '\u{2000}' || c == '\u{2001}' || c
        == '\u{2002}' || c == '\u{2003}' || c == '\u{2004}' || c == '\u{2005}' || c == '\u{2006}'
        || c == '\u{2007}' || c == '\u{2008}' || c == '\u{2009}' || c == '\u{200A}' || c
        == '\u{2028}' || c == '\u{2029}' || c == '\u{202F}' || c == '\u{205F}' || c == '\u{3000}'
}

/// The trimmed, ASCII-lowercased characters of `s`.
fn normalize_value(s: &str) -> (r: Vec<char>)
    ensures
        r@ == normalized_value(s@),
{
    let n = s.unicode_len();
    // Find the first and last non-whitespace characters.
    let mut start: usize = 0;
    proof {
        assert(s@.skip(0) =~= s@);
    }
    while start < n && is_ws_char_exec(s.get_char(start))
        invariant
            0 <= start <= n,
            n == s@.len(),
            forall|j: int| 0 <= j < start ==> is_ws_char(#[trigger] s@[j]),
            trim_front(s@) == trim_front(s@.skip(start as int)),
        decreases n - start,
    {
        proof {
            assert(s@.skip(start as int)[0] == s@[start as int]);
            assert(s@.skip(start as int).drop_first() =~= s@.skip(start as int + 1));
        }
        start = start + 1;
    }
    proof {
        if start < n {
            assert(s@.skip(start as int)[0] == s@[start as int]);
            assert(trim_front(s@) == s@.skip(start as int));
        } else {
            assert(s@.skip(start as int).len() == 0);
            assert(trim_front(s@) =~= s@.skip(start as int));
        }
    }
    let ghost t = s@.skip(start as int);
    let mut end: usize = n;
    proof {
        assert(t.take(n - start as int) =~= t);
    }
    while end > start && is_ws_char_exec(s.get_char(end - 1))
        invariant
            start <= end <= n,
            n == s@.len(),
            t == s@.skip(start as int),
            trim_front(s@) == t,
            trim_back(t) == trim_back(t.take(end - start as int)),
        decreases end,
    {
        proof {
            let u = t.take(end - start as int);
            assert(u[u.len() - 1] == s@[end - 1]);
            assert(u.drop_last() =~= t.take(end - 1 - start as int));
        }
        end = end - 1;
    }
    proof {
        let u = t.take(end - start as int);
        if end > start {
            assert(u[u.len() - 1] == s@[end - 1]);
            assert(!is_ws_char(u[u.len() - 1]));
            assert(trim_back(u) == u);
        } else {
            assert(u.len() == 0);
            assert(trim_back(u) =~= u);
        }
        assert(spec_trim(s@) == t.take(end - start as int));
    }
    let mut out: Vec<char> = Vec::new();
    let mut i: usize = start;
    while i < end
        invariant
            start <= i <= end <= n,
            n == s@.len(),
            out@.len() == i - start,
            forall|j: int| 0 <= j < out@.len() ==> out@[j] == ascii_lower_char(
                #[trigger] s@[start + j],
            ),
        decreases end - i,
    {
        out.push(ascii_lower_char_exec(s.get_char(i)));
        i = i + 1;
    }
    proof {
        assert(out@ =~= normalized_value(s@)) by {
            let u = spec_trim(s@);
            assert(u == s@.skip(start as int).take(end - start as int));
            assert forall|j: int| 0 <= j < out@.len() implies out@[j] == ascii_lower(u)[j] by {
                assert(u[j] == s@[start + j]);
            }
        }
    }
    out
}

/// Compares a character vector with a string, character for character.
fn chars_eq_str(a: &Vec<char>, b: &str) -> (r: bool)
    ensures
        r == (a@ == b@),
{
    let n = a.len();
    let m = b.unicode_len();
    if n != m {
        proof {
            assert(a@ != b@);
        }
        return false;
    }
    let mut i: usize = 0;
    while i < n
        invariant
            0 <= i <= n,
            n == a@.len(),
            n == b@.len(),
            forall|j: int| 0 <= j < i ==> a@[j] == b@[j],
        decreases n - i,
    {
        if a[i] != b.get_char(i) {
            proof {
                assert(a@[i as int] != b@[i as int]);
            }
            return false;
        }
        i = i + 1;
    }
    proof {
        assert(a@ =~= b@);
    }
    true
}

/// Decides whether caching is enabled given the cache toggle's value:
/// everything — including an unset or empty value — enables the cache,
/// except an explicit `false` or `0` (case-insensitive, trimmed).
pub fn is_cache(toggle: Option<&str>) -> (r: bool)
    ensures
        r == match toggle {
            Some(v) => !is_disable_word(v@),
            None => true,
        },
{
    match toggle {
        Some(v) => {
            let norm = normalize_value(v);
            let is_false = chars_eq_str(&norm, "false");
            let is_zero = chars_eq_str(&norm, "0");
            proof {
                reveal_strlit("false");
                reveal_strlit("0");
                assert("false"@ =~= seq!['f', 'a', 'l', 's', 'e']);
                assert("0"@ =~= seq!['0']);
            }
            !(is_false || is_zero)
        },
        None => true,
    }
}

/// The trimmed cache directory value, or `None` when unset or blank.
pub fn get_cache_path(value: Option<&str>) -> (r: Option<Vec<char>>)
    ensures
        r is Some <==> (value matches Some(v) && spec_trim(v@).len() > 0),
        r matches Some(o) ==> (value matches Some(v) && o@ == spec_trim(v@)),
{
    match value {
        Some(v) => {
            let mut trimmed = trim_value(v);
            if trimmed.len() > 0 {
                Some(trimmed)
            } else {
                None
            }
        },
        None => None,
    }
}

/// The trimmed characters of `s`.
fn trim_value(s: &str) -> (r: Vec<char>)
    ensures
        r@ == spec_trim(s@),
{
    let n = s.unicode_len();
    let mut start: usize = 0;
    proof {
        assert(s@.skip(0) =~= s@);
    }
    while start < n && is_ws_char_exec(s.get_char(start))
        invariant
            0 <= start <= n,
            n == s@.len(),
            trim_front(s@) == trim_front(s@.skip(start as int)),
        decreases n - start,
    {
        proof {
            assert(s@.skip(start as int)[0] == s@[start as int]);
            assert(s@.skip(start as int).drop_first() =~= s@.skip(start as int + 1));
        }
        start = start + 1;
    }
    proof {
        if start < n {
            assert(s@.skip(start as int)[0] == s@[start as int]);
            assert(trim_front(s@) == s@.skip(start as int));
        } else {
            assert(s@.skip(start as int).len() == 0);
            assert(trim_front(s@) =~= s@.skip(start as int));
        }
    }
    let ghost t = s@.skip(start as int);
    let mut end: usize = n;
    proof {
        assert(t.take(n - start as int) =~= t);
    }
    while end > start && is_ws_char_exec(s.get_char(end - 1))
        invariant
            start <= end <= n,
            n == s@.len(),
            t == s@.skip(start as int),
            trim_front(s@) == t,
            trim_back(t) == trim_back(t.take(end - start as int)),
        decreases end,
    {
        proof {
            let u = t.take(end - start as int);
            assert(u[u.len() - 1] == s@[end - 1]);
            assert(u.drop_last() =~= t.take(end - 1 - start as int));
        }
        end = end - 1;
    }
    proof {
        let u = t.take(end - start as int);
        if end > start {
            assert(u[u.len() - 1] == s@[end - 1]);
            assert(trim_back(u) == u);
        } else {
            assert(u.len() == 0);
            assert(trim_back(u) =~= u);
        }
        assert(spec_trim(s@) == t.take(end - start as int));
    }
    let mut out: Vec<char> = Vec::new();
    let mut i: usize = start;
    while i < end
        invariant
            start <= i <= end <= n,
            n == s@.len(),
            out@.len() == i - start,
            forall|j: int| 0 <= j < out@.len() ==> out@[j] == #[trigger] s@[start + j],
        decreases end - i,
    {
        out.push(s.get_char(i));
        i = i + 1;
    }
    proof {
        assert(out@ =~= spec_trim(s@)) by {
            let u = spec_trim(s@);
            assert(u == s@.skip(start as int).take(end - start as int));
            assert forall|j: int| 0 <= j < out@.len() implies out@[j] == u[j] by {
                assert(u[j] == s@[start + j]);
            }
        }
    }
    out
}

/// Whether `c` is a decimal digit.
pub open spec fn is_digit(c: char) -> bool {
    '0' <= c <= '9'
}

/// The numeric value of a decimal digit.
pub open spec fn digit_val(c: char) -> int {
    (c as u32) - 48
}

/// The value of a string of decimal digits.
pub open spec fn digits_value(s: Seq<char>) -> int
    decreases s.len(),
{
    if s.len() == 0 {
        0
    } else {
        digits_value(s.drop_last()) * 10 + digit_val(s.last())
    }
}

/// The digit part of a decimal literal: everything after an optional
/// leading plus sign.
pub open spec fn digit_part(s: Seq<char>) -> Seq<char> {
    if s.len() > 0 && s[0] == '+' {
        s.drop_first()
    } else {
        s
    }
}

/// Whether `s` parses as a `usize`: an optional plus sign, then at least
/// one digit, with a value that fits.
pub open spec fn usize_parsable(s: Seq<char>) -> bool {
    let d = digit_part(s);
    d.len() > 0 && (forall|i: int| 0 <= i < d.len() ==> is_digit(#[trigger] d[i]))
        && digits_value(d) <= usize::MAX
}

/// The parsed value of a decimal literal.
pub open spec fn parsed_usize(s: Seq<char>) -> int {
    digits_value(digit_part(s))
}

proof fn lemma_digits_value_nonneg(s: Seq<char>)
    requires
        forall|i: int| 0 <= i < s.len() ==> is_digit(#[trigger] s[i]),
    ensures
        digits_value(s) >= 0,
    decreases s.len(),
{
    if s.len() == 0 {
    } else {
        assert(forall|i: int|
            0 <= i < s.drop_last().len() ==> is_digit(#[trigger] s.drop_last()[i]));
        lemma_digits_value_nonneg(s.drop_last());
    }
}

proof fn lemma_digits_value_prefix(s: Seq<char>, i: int)
    requires
        forall|j: int| 0 <= j < s.len() ==> is_digit(#[trigger] s[j]),
        0 <= i <= s.len(),
    ensures
        digits_value(s.take(i)) <= digits_value(s),
    decreases s.len() - i,
{
    if i == s.len() {
        assert(s.take(i) =~= s);
    } else {
        lemma_digits_value_prefix(s, i + 1);
        let t = s.take(i + 1);
        assert(t.drop_last() =~= s.take(i));
        assert(forall|j: int| 0 <= j < t.len() ==> is_digit(#[trigger] t[j]));
        assert(forall|j: int| 0 <= j < s.take(i).len() ==> is_digit(#[trigger] s.take(i)[j]));
        lemma_digits_value_nonneg(s.take(i));
        assert(digits_value(t) == digits_value(s.take(i)) * 10 + digit_val(t.last()));
        assert(digit_val(t.last()) >= 0);
        assert(digits_value(s.take(i)) <= digits_value(s.take(i)) * 10) by (nonlinear_arith)
            requires digits_value(s.take(i)) >= 0;
    }
}

/// Parses a decimal `usize`: an optional plus sign, then digits.  Returns
/// `None` on any other character, an empty digit part, or overflow.
pub fn parse_usize(s: &str) -> (r: Option<usize>)
    ensures
        r is Some <==> usize_parsable(s@),
        r matches Some(v) ==> v == parsed_usize(s@),
{
    let n = s.unicode_len();
    let start: usize = if n > 0 && s.get_char(0) == '+' {
        1
    } else {
        0
    };
    let ghost d = digit_part(s@);
    proof {
        if start == 1 {
            assert(d =~= s@.skip(1));
        } else {
            assert(d =~= s@);
        }
    }
    if start >= n {
        proof {
            assert(d.len() == 0);
        }
        return None;
    }
    let mut acc: usize = 0;
    let mut i: usize = start;
    proof {
        assert(d.take(0) =~= Seq::<char>::empty());
    }
    while i < n
        invariant
            start <= i <= n,
            n == s@.len(),
            start == if n > 0 && s@[0] == '+' {
                1int
            } else {
                0int
            },
            d == digit_part(s@),
            forall|j: int| 0 <= j < i - start ==> is_digit(#[trigger] d[j]),
            acc == digits_value(d.take(i - start as int)),
        decreases n - i,
    {
        let c = s.get_char(i);
        if !('0' <= c && c <= '9') {
            proof {
                assert(d[i - start as int] == s@[i as int]);
            }
            return None;
        }
        let dv = (c as u32) as usize - 48;
        proof {
            assert(d[i - start as int] == s@[i as int]);
            assert(d.take(i + 1 - start as int).drop_last() =~= d.take(i - start as int));
            assert(forall|j: int|
                0 <= j < i + 1 - start ==> is_digit(#[trigger] d[j]));
        }
        if acc > (usize::MAX - dv) / 10 {
            proof {
                assert(acc * 10 + dv > usize::MAX) by (nonlinear_arith)
                    requires acc > (usize::MAX - dv) / 10, 0 <= dv <= 9;
                assert(digits_value(d.take(i + 1 - start as int)) == acc * 10 + dv);
                if usize_parsable(s@) {
                    lemma_digits_value_prefix(d, i + 1 - start as int);
                    assert(false);
                }
            }
            return None;
        }
        proof {
            assert(acc * 10 + dv <= usize::MAX) by (nonlinear_arith)
                requires acc <= (usize::MAX - dv) / 10, 0 <= dv <= 9;
        }
        acc = acc * 10 + dv;
        i = i + 1;
    }
    proof {
        assert(d.take(n - start as int) =~= d);
        assert(usize_parsable(s@));
    }
    Some(acc)
}

/// Builds a [`CacheConfig`] from the defaults and the raw override values:
/// a parsable entry count replaces the maximum entry count; a parsable
/// memory size in MiB replaces the memory budget (saturating); an eviction
/// policy of `lru` or `fifo` (case-insensitive, trimmed) selects the policy;
/// a file-validation value of `false` or `0` disables validation, anything
/// else enables it.  Malformed values leave the default in place.
pub fn get_cache_config(
    max_entries: Option<&str>,
    max_memory_mb: Option<&str>,
    eviction: Option<&str>,
    validate_files: Option<&str>,
) -> (r: CacheConfig)
    ensures
        r.max_entries == (match max_entries {
            Some(v) => if usize_parsable(v@) {
                parsed_usize(v@)
            } else {
                1000int
            },
            None => 1000int,
        }),
        r.max_memory_bytes == (match max_memory_mb {
            Some(v) => if usize_parsable(v@) {
                if parsed_usize(v@) * 0x100000 <= usize::MAX {
                    parsed_usize(v@) * 0x100000
                } else {
                    usize::MAX as int
                }
            } else {
                0x6400000
            },
            None => 0x6400000,
        }),
        r.use_lru_eviction == !(eviction matches Some(v) && normalized_value(v@) == seq![
            'f',
            'i',
            'f',
            'o',
        ]),
        r.validate_file_mtime == !(validate_files matches Some(v) && is_disable_word(v@)),
        !r.enable_compression,
{
    let mut config = CacheConfig::default();
    match max_entries {
        Some(v) => {
            match parse_usize(v) {
                Some(value) => {
                    config.max_entries = value;
                },
                None => {},
            }
        },
        None => {},
    }
    match max_memory_mb {
        Some(v) => {
            match parse_usize(v) {
                Some(value) => {
                    if value <= usize::MAX / 0x100000 {
                        proof {
                            assert(value * 0x100000 <= usize::MAX) by (nonlinear_arith)
                                requires value <= usize::MAX / 0x100000;
                        }
                        config.max_memory_bytes = value * 0x100000;
                    } else {
                        proof {
                            assert(value * 0x100000 > usize::MAX) by (nonlinear_arith)
                                requires value > usize::MAX / 0x100000;
                        }
                        config.max_memory_bytes = usize::MAX;
                    }
                },
                None => {},
            }
        },
        None => {},
    }
    match eviction {
        Some(v) => {
            let norm = normalize_value(v);
            proof {
                reveal_strlit("lru");
                reveal_strlit("fifo");
                assert("lru"@ =~= seq!['l', 'r', 'u']);
                assert("fifo"@ =~= seq!['f', 'i', 'f', 'o']);
            }
            if chars_eq_str(&norm, "lru") {
                config.use_lru_eviction = true;
            } else if chars_eq_str(&norm, "fifo") {
                config.use_lru_eviction = false;
            }
        },
        None => {},
    }
    match validate_files {
        Some(v) => {
            let norm = normalize_value(v);
            proof {
                reveal_strlit("false");
                reveal_strlit("0");
                assert("false"@ =~= seq!['f', 'a', 'l', 's', 'e']);
                assert("0"@ =~= seq!['0']);
            }
            let is_false = chars_eq_str(&norm, "false");
            let is_zero = chars_eq_str(&norm, "0");
            config.validate_file_mtime = !(is_false || is_zero);
        },
        None => {},
    }
    config
}

/// Copies a vector of copyable values.
fn copy_vec<T: Copy>(v: &Vec<T>) -> (r: Vec<T>)
    ensures
        r@ == v@,
{
    let n = v.len();
    let mut out: Vec<T> = Vec::new();
    let mut i: usize = 0;
    while i < n
        invariant
            0 <= i <= n,
            n == v@.len(),
            out@ == v@.take(i as int),
        decreases n - i,
    {
        out.push(v[i]);
        proof {
            assert(out@ =~= v@.take(i as int + 1));
        }
        i = i + 1;
    }
    proof {
        assert(v@.take(n as int) =~= v@);
    }
    out
}

/// Cumulative cache statistics.
#[derive(Clone, Copy, PartialEq, Eq, Structural, Debug)]
pub struct CacheStats {
    /// Number of lookups answered from the cache.
    pub hits: u64,
    /// Number of lookups that missed.
    pub misses: u64,
    /// Number of entries removed under budget pressure.
    pub evictions: u64,
}

impl CacheStats {
    /// The hit rate as a whole percentage of all lookups, 0 when no lookup
    /// has happened yet.
    pub fn hit_rate_percent(&self) -> (r: u64)
        ensures
            self.hits + self.misses == 0 ==> r == 0,
            self.hits + self.misses > 0 ==> r == (self.hits * 100) / (self.hits + self.misses),
    {
        if self.hits == 0 && self.misses == 0 {
            0
        } else {
            let total: u128 = self.hits as u128 + self.misses as u128;
            let r = (self.hits as u128 * 100) / total;
            proof {
                assert(self.hits as int * 100 <= total as int * 100) by (nonlinear_arith)
                    requires self.hits as int <= total as int;
                assert((self.hits as int * 100) / (total as int) <= 100) by (nonlinear_arith)
                    requires
                        total as int > 0,
                        self.hits as int * 100 <= total as int * 100,
                ;
            }
            r as u64
        }
    }
}

/// One stored analysis result, keyed by the source file's content hash and
/// the hash of the function body's mid-level representation.
pub struct CacheEntry {
    /// Content hash of the source file.
    pub file_hash: String,
    /// Hash of the function body's mid-level representation.
    pub mir_hash: String,
    /// The stored declaration record.
    pub record: Function,
    /// The source file's modification time when the entry was stored.
    pub file_mtime: Option<u64>,
    /// The estimated in-memory size of the entry.
    pub size_bytes: usize,
    /// Logical time of insertion.
    pub inserted_stamp: u64,
    /// Logical time of the last hit.
    pub accessed_stamp: u64,
}

/// `x + 1`, saturating at the largest counter value.
pub open spec fn sat_inc(x: u64) -> u64 {
    if x < 0xffff_ffff_ffff_ffffu64 {
        (x + 1) as u64
    } else {
        x
    }
}

/// The eviction stamp the configured policy compares: last access under
/// LRU, insertion under FIFO.
pub open spec fn policy_stamp(e: CacheEntry, lru: bool) -> u64 {
    if lru {
        e.accessed_stamp
    } else {
        e.inserted_stamp
    }
}

/// Whether two entries carry the same key.
pub open spec fn same_key(a: CacheEntry, fh: Seq<char>, mh: Seq<char>) -> bool {
    a.file_hash@ == fh && a.mir_hash@ == mh
}

/// Keys are pairwise distinct.
pub open spec fn cache_keys_unique(s: Seq<CacheEntry>) -> bool {
    forall|i: int, j: int|
        0 <= i < j < s.len() ==> !((#[trigger] s[i]).file_hash@ == (#[trigger] s[j]).file_hash@
            && s[i].mir_hash@ == s[j].mir_hash@)
}

/// Whether the store holds an entry under the key.
pub open spec fn cache_has(s: Seq<CacheEntry>, fh: Seq<char>, mh: Seq<char>) -> bool {
    exists|i: int| 0 <= i < s.len() && same_key(#[trigger] s[i], fh, mh)
}

/// The position of the entry under the key.
pub open spec fn cache_index(s: Seq<CacheEntry>, fh: Seq<char>, mh: Seq<char>) -> int {
    choose|i: int| 0 <= i < s.len() && same_key(#[trigger] s[i], fh, mh)
}

/// The total stored size of a list of entries.
pub open spec fn entries_bytes(s: Seq<CacheEntry>) -> int
    decreases s.len(),
{
    if s.len() == 0 {
        0
    } else {
        entries_bytes(s.drop_last()) + s.last().size_bytes
    }
}

/// Whether an entry is still valid against the source file's current
/// modification time: always when validation is off or either time is
/// unknown, otherwise only when the file has not been modified since the
/// entry was stored.
pub open spec fn entry_fresh(e: CacheEntry, current_mtime: Option<u64>, validate: bool) -> bool {
    !validate || match (current_mtime, e.file_mtime) {
        (Some(c), Some(rec)) => c <= rec,
        _ => true,
    }
}

/// A bounded, evicting store for per-function analysis results.
///
/// Entries are keyed by (source file content hash, function body hash).
/// Inserting past the configured entry count or memory budget evicts the
/// least-recently-used entry first (or the earliest-inserted one, under the
/// FIFO policy) until the store is back under budget.
pub struct ResultCache {
    config: CacheConfig,
    entries: Vec<CacheEntry>,
    clock: u64,
    hits: u64,
    misses: u64,
    evictions: u64,
}

impl ResultCache {
    /// The stored entries, as seen by specifications.
    pub closed spec fn spec_entries(&self) -> Seq<CacheEntry> {
        self.entries@
    }

    /// The configuration, as seen by specifications.
    pub closed spec fn spec_config(&self) -> CacheConfig {
        self.config
    }

    /// The hit counter, as seen by specifications.
    pub closed spec fn spec_hits(&self) -> u64 {
        self.hits
    }

    /// The miss counter, as seen by specifications.
    pub closed spec fn spec_misses(&self) -> u64 {
        self.misses
    }

    /// The eviction counter, as seen by specifications.
    pub closed spec fn spec_evictions(&self) -> u64 {
        self.evictions
    }

    /// The logical clock, as seen by specifications.
    pub closed spec fn spec_clock(&self) -> u64 {
        self.clock
    }

    /// Well-formedness: keys are unique and stamps never outrun the clock.
    pub open spec fn wf(&self) -> bool {
        &&& cache_keys_unique(self.spec_entries())
        &&& forall|i: int|
            0 <= i < self.spec_entries().len() ==> (#[trigger] self.spec_entries()[i]).accessed_stamp
                <= self.spec_clock() && self.spec_entries()[i].inserted_stamp <= self.spec_clock()
    }

    /// Creates an empty cache with the given configuration.
    pub fn new(config: CacheConfig) -> (r: Self)
        ensures
            r.wf(),
            r.spec_entries().len() == 0,
            r.spec_config() == config,
            r.spec_hits() == 0,
            r.spec_misses() == 0,
            r.spec_evictions() == 0,
    {
        ResultCache { config, entries: Vec::new(), clock: 0, hits: 0, misses: 0, evictions: 0 }
    }

    /// The number of stored entries.
    pub fn len(&self) -> (r: usize)
        ensures
            r == self.spec_entries().len(),
    {
        self.entries.len()
    }

    /// The configuration the cache was created with.
    pub fn config(&self) -> (r: &CacheConfig)
        ensures
            *r == self.spec_config(),
    {
        &self.config
    }

    /// The cumulative statistics.
    pub fn get_stats(&self) -> (r: CacheStats)
        ensures
            r.hits == self.spec_hits(),
            r.misses == self.spec_misses(),
            r.evictions == self.spec_evictions(),
    {
        CacheStats { hits: self.hits, misses: self.misses, evictions: self.evictions }
    }

    /// Looks an entry up by its key.
    ///
    /// A hit is returned only if both hashes match and, when modification
    /// time validation is on, the file's current modification time has not
    /// advanced past the time recorded at insertion.  A hit refreshes the
    /// entry's access stamp and counts toward the hit counter; anything else
    /// counts as a miss.
    pub fn lookup(&mut self, file_hash: &str, mir_hash: &str, current_mtime: Option<u64>) -> (r:
        Option<Function>)
        requires
            old(self).wf(),
        ensures
            final(self).wf(),
            final(self).spec_config() == old(self).spec_config(),
            final(self).spec_evictions() == old(self).spec_evictions(),
            final(self).spec_entries().len() == old(self).spec_entries().len(),
            r is Some <==> (cache_has(old(self).spec_entries(), file_hash@, mir_hash@)
                && entry_fresh(
                old(self).spec_entries()[cache_index(
                    old(self).spec_entries(),
                    file_hash@,
                    mir_hash@,
                )],
                current_mtime,
                old(self).spec_config().validate_file_mtime,
            )),
            r matches Some(f) ==> crate::models::function_matches(
                f,
                old(self).spec_entries()[cache_index(
                    old(self).spec_entries(),
                    file_hash@,
                    mir_hash@,
                )].record,
            ),
            r is Some ==> final(self).spec_hits() == sat_inc(old(self).spec_hits())
                && final(self).spec_misses() == old(self).spec_misses(),
            r is None ==> final(self).spec_misses() == sat_inc(old(self).spec_misses())
                && final(self).spec_hits() == old(self).spec_hits(),
            forall|i: int|
                0 <= i < old(self).spec_entries().len() ==> {
                    let a = #[trigger] final(self).spec_entries()[i];
                    let b = old(self).spec_entries()[i];
                    a.file_hash@ == b.file_hash@ && a.mir_hash@ == b.mir_hash@ && a.record
                        == b.record && a.file_mtime == b.file_mtime && a.size_bytes == b.size_bytes
                        && a.inserted_stamp == b.inserted_stamp
                },
    {
        let n = self.entries.len();
        let mut i: usize = 0;
        while i < n
            invariant
                0 <= i <= n,
                n == self.entries@.len(),
                self == old(self),
                self.wf(),
                forall|j: int|
                    0 <= j < i ==> !same_key(#[trigger] self.entries@[j], file_hash@, mir_hash@),
            decreases n - i,
        {
            let fh_eq = str_eq(self.entries[i].file_hash.as_str(), file_hash);
            let mh_eq = str_eq(self.entries[i].mir_hash.as_str(), mir_hash);
            if fh_eq && mh_eq {
                proof {
                    assert(same_key(self.entries@[i as int], file_hash@, mir_hash@));
                    assert(cache_has(self.entries@, file_hash@, mir_hash@));
                    assert(cache_index(self.entries@, file_hash@, mir_hash@) == i as int) by {
                        let w = cache_index(self.entries@, file_hash@, mir_hash@);
                        assert(0 <= w < self.entries@.len() && same_key(
                            self.entries@[w],
                            file_hash@,
                            mir_hash@,
                        ));
                        if w != i as int {
                            assert(false);
                        }
                    }
                }
                let fresh = if self.config.validate_file_mtime {
                    match (current_mtime, self.entries[i].file_mtime) {
                        (Some(c), Some(rec)) => c <= rec,
                        _ => true,
                    }
                } else {
                    true
                };
                if fresh {
                    let now = self.clock;
                    if self.clock < 0xffff_ffff_ffff_ffffu64 {
                        self.clock = self.clock + 1;
                    }
                    let ghost entries_before = self.entries@;
                    let mut e = self.entries.remove(i);
                    e.accessed_stamp = now;
                    let result = crate::models::clone_function(&e.record);
                    self.entries.insert(i, e);
                    self.hits = if self.hits < 0xffff_ffff_ffff_ffffu64 {
                        self.hits + 1
                    } else {
                        self.hits
                    };
                    proof {
                        assert(self.entries@.len() == entries_before.len());
                        assert forall|j: int| 0 <= j < self.entries@.len() implies (
                        #[trigger] self.entries@[j]).accessed_stamp <= self.clock
                            && self.entries@[j].inserted_stamp <= self.clock by {
                            if j != i as int {
                                assert(self.entries@[j] == entries_before[j]);
                            }
                        }
                        assert(cache_keys_unique(self.entries@)) by {
                            assert forall|a: int, b: int|
                                0 <= a < b < self.entries@.len() implies !((
                            #[trigger] self.entries@[a]).file_hash@ == (
                            #[trigger] self.entries@[b]).file_hash@ && self.entries@[a].mir_hash@
                                == self.entries@[b].mir_hash@) by {
                                assert(self.entries@[a].file_hash@ == entries_before[a].file_hash@
                                    && self.entries@[a].mir_hash@ == entries_before[a].mir_hash@);
                                assert(self.entries@[b].file_hash@ == entries_before[b].file_hash@
                                    && self.entries@[b].mir_hash@ == entries_before[b].mir_hash@);
                            }
                        }
                    }
                    return Some(result);
                } else {
                    self.misses = if self.misses < 0xffff_ffff_ffff_ffffu64 {
                        self.misses + 1
                    } else {
                        self.misses
                    };
                    return None;
                }
            }
            i = i + 1;
        }
        proof {
            if cache_has(self.entries@, file_hash@, mir_hash@) {
                let w = cache_index(self.entries@, file_hash@, mir_hash@);
                assert(0 <= w < self.entries@.len() && same_key(
                    self.entries@[w],
                    file_hash@,
                    mir_hash@,
                ));
                assert(false);
            }
        }
        self.misses = if self.misses < 0xffff_ffff_ffff_ffffu64 {
            self.misses + 1
        } else {
            self.misses
        };
        None
    }
}

/// `a + b`, saturating at `usize::MAX`.
fn sat_add(a: usize, b: usize) -> (r: usize)
    ensures
        r == min_sat(a + b),
{
    if a <= usize::MAX - b {
        a + b
    } else {
        usize::MAX
    }
}

/// `a * b`, saturating at `usize::MAX`.
fn sat_mul(a: usize, b: usize) -> (r: usize)
    ensures
        r == min_sat(a * b),
{
    if b == 0 {
        proof {
            assert(a * b == 0) by (nonlinear_arith)
                requires b == 0;
        }
        0
    } else if a <= usize::MAX / b {
        proof {
            assert(a * b <= usize::MAX) by (nonlinear_arith)
                requires b > 0, a <= usize::MAX / b;
        }
        a * b
    } else {
        proof {
            assert(a * b > usize::MAX) by (nonlinear_arith)
                requires b > 0, a > usize::MAX / b;
        }
        usize::MAX
    }
}

/// The smaller of `x` and `usize::MAX`.
pub open spec fn min_sat(x: int) -> int {
    if x <= usize::MAX {
        x
    } else {
        usize::MAX as int
    }
}

proof fn lemma_entries_bytes_take(s: Seq<CacheEntry>, i: int)
    requires
        0 <= i < s.len(),
    ensures
        entries_bytes(s.take(i + 1)) == entries_bytes(s.take(i)) + s[i].size_bytes,
{
    let t = s.take(i + 1);
    assert(t.drop_last() =~= s.take(i));
    assert(t.last() == s[i]);
}

proof fn lemma_entries_bytes_nonneg(s: Seq<CacheEntry>)
    ensures
        entries_bytes(s) >= 0,
    decreases s.len(),
{
    if s.len() > 0 {
        lemma_entries_bytes_nonneg(s.drop_last());
    }
}

proof fn lemma_entries_bytes_push(s: Seq<CacheEntry>, e: CacheEntry)
    ensures
        entries_bytes(s.push(e)) == entries_bytes(s) + e.size_bytes,
{
    assert(s.push(e).drop_last() =~= s);
    assert(s.push(e).last() == e);
}

proof fn lemma_entries_bytes_remove(s: Seq<CacheEntry>, i: int)
    requires
        0 <= i < s.len(),
    ensures
        entries_bytes(s.remove(i)) == entries_bytes(s) - s[i].size_bytes,
    decreases s.len(),
{
    if i == s.len() - 1 {
        assert(s.remove(i) =~= s.drop_last());
    } else {
        assert(s.remove(i).drop_last() =~= s.drop_last().remove(i));
        assert(s.remove(i).last() == s.last());
        lemma_entries_bytes_remove(s.drop_last(), i);
        assert(s.drop_last()[i] == s[i]);
    }
}

proof fn lemma_entries_bytes_insert(s: Seq<CacheEntry>, i: int, e: CacheEntry)
    requires
        0 <= i <= s.len(),
    ensures
        entries_bytes(s.insert(i, e)) == entries_bytes(s) + e.size_bytes,
    decreases s.len(),
{
    if i == s.len() {
        assert(s.insert(i, e) =~= s.push(e));
        lemma_entries_bytes_push(s, e);
    } else {
        assert(s.insert(i, e).drop_last() =~= s.drop_last().insert(i, e));
        assert(s.insert(i, e).last() == s.last());
        lemma_entries_bytes_insert(s.drop_last(), i, e);
    }
}

/// The modeled in-memory cost of one basic block.
pub open spec fn spec_block_cost(bb: MirBasicBlock) -> int {
    32 + bb.statements@.len() as int * 48
}

/// The modeled in-memory cost of a list of basic blocks.
pub open spec fn spec_blocks_cost(s: Seq<MirBasicBlock>) -> int
    decreases s.len(),
{
    if s.len() == 0 {
        0
    } else {
        spec_blocks_cost(s.drop_last()) + spec_block_cost(s.last())
    }
}

/// The UTF-8 byte length of a string, as `str::len` reports it.
pub open spec fn string_bytes(s: String) -> int {
    (vstd::utf8::encode_utf8(s@).len() as usize) as int
}

/// The modeled in-memory cost of one declaration record.
pub open spec fn spec_decl_cost(d: MirDecl) -> int {
    match d {
        MirDecl::User {
            name,
            ty,
            lives,
            shared_borrow,
            mutable_borrow,
            drop_range,
            must_live_at,
            ..
        } => 96 + string_bytes(name) + string_bytes(ty) + 8 * (lives@.len() as int
            + shared_borrow@.len() + mutable_borrow@.len() + drop_range@.len()
            + must_live_at@.len()),
        MirDecl::Other {
            ty,
            lives,
            shared_borrow,
            mutable_borrow,
            drop_range,
            must_live_at,
            ..
        } => 96 + string_bytes(ty) + 8 * (lives@.len() as int + shared_borrow@.len()
            + mutable_borrow@.len() + drop_range@.len() + must_live_at@.len()),
    }
}

/// The modeled in-memory cost of a list of declaration records.
pub open spec fn spec_decls_cost(s: Seq<MirDecl>) -> int
    decreases s.len(),
{
    if s.len() == 0 {
        0
    } else {
        spec_decls_cost(s.drop_last()) + spec_decl_cost(s.last())
    }
}

/// The modeled in-memory size of one stored record: what the budget
/// accounting charges it.
pub open spec fn spec_function_size(f: Function) -> int {
    64 + spec_blocks_cost(f.basic_blocks@) + spec_decls_cost(f.decls@)
}

proof fn lemma_block_cost_nonneg(bb: MirBasicBlock)
    ensures
        spec_block_cost(bb) >= 0,
{
    assert(bb.statements@.len() as int * 48 >= 0) by (nonlinear_arith)
        requires bb.statements@.len() as int >= 0;
}

proof fn lemma_blocks_cost_nonneg(s: Seq<MirBasicBlock>)
    ensures
        spec_blocks_cost(s) >= 0,
    decreases s.len(),
{
    if s.len() > 0 {
        lemma_blocks_cost_nonneg(s.drop_last());
        lemma_block_cost_nonneg(s.last());
    }
}

proof fn lemma_decl_cost_nonneg(d: MirDecl)
    ensures
        spec_decl_cost(d) >= 0,
{
}

proof fn lemma_decls_cost_nonneg(s: Seq<MirDecl>)
    ensures
        spec_decls_cost(s) >= 0,
    decreases s.len(),
{
    if s.len() > 0 {
        lemma_decls_cost_nonneg(s.drop_last());
        lemma_decl_cost_nonneg(s.last());
    }
}

proof fn lemma_blocks_cost_take(s: Seq<MirBasicBlock>, i: int)
    requires
        0 <= i < s.len(),
    ensures
        spec_blocks_cost(s.take(i + 1)) == spec_blocks_cost(s.take(i)) + spec_block_cost(s[i]),
{
    let t = s.take(i + 1);
    assert(t.drop_last() =~= s.take(i));
    assert(t.last() == s[i]);
}

proof fn lemma_decls_cost_take(s: Seq<MirDecl>, i: int)
    requires
        0 <= i < s.len(),
    ensures
        spec_decls_cost(s.take(i + 1)) == spec_decls_cost(s.take(i)) + spec_decl_cost(s[i]),
{
    let t = s.take(i + 1);
    assert(t.drop_last() =~= s.take(i));
    assert(t.last() == s[i]);
}

/// Saturation composes: saturating the parts before adding them saturates
/// the sum.
proof fn lemma_min_sat_add(a: int, b: int)
    requires
        a >= 0,
        b >= 0,
    ensures
        min_sat(min_sat(a) + min_sat(b)) == min_sat(a + b),
{
}

/// Saturation composes with scaling by a small constant.
proof fn lemma_min_sat_mul8(a: int)
    requires
        a >= 0,
    ensures
        min_sat(min_sat(a) * 8) == min_sat(a * 8),
{
    if a > usize::MAX {
        assert(a * 8 > usize::MAX) by (nonlinear_arith)
            requires a > usize::MAX;
    }
}

/// Deep-equal functions are charged the same modeled size.
pub proof fn lemma_function_size_matches(a: Function, b: Function)
    requires
        crate::models::function_matches(a, b),
    ensures
        spec_function_size(a) == spec_function_size(b),
{
    lemma_blocks_cost_pointwise(a.basic_blocks@, b.basic_blocks@);
    lemma_decls_cost_pointwise(a.decls@, b.decls@);
}

proof fn lemma_blocks_cost_pointwise(x: Seq<MirBasicBlock>, y: Seq<MirBasicBlock>)
    requires
        x.len() == y.len(),
        forall|i: int| 0 <= i < x.len() ==> crate::models::bb_matches(#[trigger] x[i], y[i]),
    ensures
        spec_blocks_cost(x) == spec_blocks_cost(y),
    decreases x.len(),
{
    if x.len() > 0 {
        assert forall|i: int| 0 <= i < x.drop_last().len() implies crate::models::bb_matches(
            #[trigger] x.drop_last()[i],
            y.drop_last()[i],
        ) by {
            assert(x.drop_last()[i] == x[i] && y.drop_last()[i] == y[i]);
        }
        lemma_blocks_cost_pointwise(x.drop_last(), y.drop_last());
        assert(crate::models::bb_matches(x[x.len() - 1], y[y.len() - 1]));
    }
}

proof fn lemma_decls_cost_pointwise(x: Seq<MirDecl>, y: Seq<MirDecl>)
    requires
        x.len() == y.len(),
        forall|i: int| 0 <= i < x.len() ==> crate::models::decl_matches(#[trigger] x[i], y[i]),
    ensures
        spec_decls_cost(x) == spec_decls_cost(y),
    decreases x.len(),
{
    if x.len() > 0 {
        assert forall|i: int| 0 <= i < x.drop_last().len() implies crate::models::decl_matches(
            #[trigger] x.drop_last()[i],
            y.drop_last()[i],
        ) by {
            assert(x.drop_last()[i] == x[i] && y.drop_last()[i] == y[i]);
        }
        lemma_decls_cost_pointwise(x.drop_last(), y.drop_last());
        assert(crate::models::decl_matches(x[x.len() - 1], y[y.len() - 1]));
        assert(spec_decl_cost(x.last()) == spec_decl_cost(y.last()));
    }
}

/// An estimate of the in-memory size of one stored record, the saturated
/// form of [`spec_function_size`].
fn function_size_estimate(f: &Function) -> (r: usize)
    ensures
        r == min_sat(spec_function_size(*f)),
{
    let mut total: usize = 64;
    let nb = f.basic_blocks.len();
    let mut i: usize = 0;
    proof {
        assert(f.basic_blocks@.take(0) =~= Seq::<MirBasicBlock>::empty());
    }
    while i < nb
        invariant
            0 <= i <= nb,
            nb == f.basic_blocks@.len(),
            total == min_sat(64 + spec_blocks_cost(f.basic_blocks@.take(i as int))),
        decreases nb - i,
    {
        let bb_len = f.basic_blocks[i].statements.len();
        let bc = sat_add(32, sat_mul(bb_len, 48));
        proof {
            let bb = f.basic_blocks@[i as int];
            assert(bb_len * 48 >= 0) by (nonlinear_arith)
                requires bb_len >= 0;
            lemma_min_sat_add(32, bb_len as int * 48);
            assert(bc == min_sat(spec_block_cost(bb)));
            lemma_blocks_cost_nonneg(f.basic_blocks@.take(i as int));
            lemma_block_cost_nonneg(bb);
            lemma_min_sat_add(64 + spec_blocks_cost(f.basic_blocks@.take(i as int)), spec_block_cost(bb));
            lemma_blocks_cost_take(f.basic_blocks@, i as int);
        }
        total = sat_add(total, bc);
        i = i + 1;
    }
    proof {
        assert(f.basic_blocks@.take(nb as int) =~= f.basic_blocks@);
        assert(f.decls@.take(0) =~= Seq::<MirDecl>::empty());
    }
    let ghost base = 64 + spec_blocks_cost(f.basic_blocks@);
    let nd = f.decls.len();
    let mut k: usize = 0;
    while k < nd
        invariant
            0 <= k <= nd,
            nd == f.decls@.len(),
            base == 64 + spec_blocks_cost(f.basic_blocks@),
            base >= 0,
            total == min_sat(base + spec_decls_cost(f.decls@.take(k as int))),
        decreases nd - k,
    {
        let decl_cost = match &f.decls[k] {
            MirDecl::User { name, ty, lives, shared_borrow, mutable_borrow, drop_range, must_live_at, .. } => {
                let ranges = sat_add(
                    sat_add(sat_add(lives.len(), shared_borrow.len()), mutable_borrow.len()),
                    sat_add(drop_range.len(), must_live_at.len()),
                );
                let ghost rsum: int = lives@.len() as int + shared_borrow@.len()
                    + mutable_borrow@.len() + drop_range@.len() + must_live_at@.len();
                proof {
                    lemma_min_sat_add(lives@.len() as int + shared_borrow@.len(), mutable_borrow@.len() as int);
                    lemma_min_sat_add(
                        lives@.len() as int + shared_borrow@.len() + mutable_borrow@.len(),
                        drop_range@.len() as int + must_live_at@.len(),
                    );
                    assert(ranges == min_sat(rsum));
                }
                let scaled = sat_mul(ranges, 8);
                proof {
                    lemma_min_sat_mul8(rsum);
                    assert(scaled == min_sat(rsum * 8));
                }
                let name_len = name.as_str().len();
                let ty_len = ty.as_str().len();
                proof {
                    assert(name_len == string_bytes(*name));
                    assert(ty_len == string_bytes(*ty));
                }
                let name_ty = sat_add(name_len, ty_len);
                let head = sat_add(96, name_ty);
                proof {
                    assert(rsum * 8 >= 0) by (nonlinear_arith)
                        requires rsum >= 0;
                    assert(name_ty == min_sat(string_bytes(*name) + string_bytes(*ty)));
                    lemma_min_sat_add(96, string_bytes(*name) + string_bytes(*ty));
                    assert(head == min_sat(96 + string_bytes(*name) + string_bytes(*ty)));
                    lemma_min_sat_add(96 + string_bytes(*name) + string_bytes(*ty), rsum * 8);
                }
                let c = sat_add(head, scaled);
                proof {
                    assert(c == min_sat(spec_decl_cost(f.decls@[k as int])));
                }
                c
            },
            MirDecl::Other { ty, lives, shared_borrow, mutable_borrow, drop_range, must_live_at, .. } => {
                let ranges = sat_add(
                    sat_add(sat_add(lives.len(), shared_borrow.len()), mutable_borrow.len()),
                    sat_add(drop_range.len(), must_live_at.len()),
                );
                let ghost rsum: int = lives@.len() as int + shared_borrow@.len()
                    + mutable_borrow@.len() + drop_range@.len() + must_live_at@.len();
                proof {
                    lemma_min_sat_add(lives@.len() as int + shared_borrow@.len(), mutable_borrow@.len() as int);
                    lemma_min_sat_add(
                        lives@.len() as int + shared_borrow@.len() + mutable_borrow@.len(),
                        drop_range@.len() as int + must_live_at@.len(),
                    );
                    assert(ranges == min_sat(rsum));
                }
                let scaled = sat_mul(ranges, 8);
                proof {
                    lemma_min_sat_mul8(rsum);
                    assert(scaled == min_sat(rsum * 8));
                }
                let ty_len = ty.as_str().len();
                proof {
                    assert(ty_len == string_bytes(*ty));
                }
                let head = sat_add(96, ty_len);
                proof {
                    assert(rsum * 8 >= 0) by (nonlinear_arith)
                        requires rsum >= 0;
                    assert(head == min_sat(96 + string_bytes(*ty)));
                    lemma_min_sat_add(96 + string_bytes(*ty), rsum * 8);
                }
                let c = sat_add(head, scaled);
                proof {
                    assert(c == min_sat(spec_decl_cost(f.decls@[k as int])));
                }
                c
            },
        };
        proof {
            let d = f.decls@[k as int];
            lemma_decls_cost_nonneg(f.decls@.take(k as int));
            lemma_decl_cost_nonneg(d);
            lemma_min_sat_add(base + spec_decls_cost(f.decls@.take(k as int)), spec_decl_cost(d));
            lemma_decls_cost_take(f.decls@, k as int);
        }
        total = sat_add(total, decl_cost);
        k = k + 1;
    }
    proof {
        assert(f.decls@.take(nd as int) =~= f.decls@);
    }
    total
}

impl ResultCache {
    /// The total stored size, saturating at `usize::MAX`.
    fn used_bytes(&self) -> (r: usize)
        ensures
            r == min_sat(entries_bytes(self.spec_entries())),
    {
        let n = self.entries.len();
        let mut total: usize = 0;
        let mut i: usize = 0;
        proof {
            assert(self.entries@.take(0) =~= Seq::<CacheEntry>::empty());
        }
        while i < n
            invariant
                0 <= i <= n,
                n == self.entries@.len(),
                total == min_sat(entries_bytes(self.entries@.take(i as int))),
                entries_bytes(self.entries@.take(i as int)) >= 0,
            decreases n - i,
        {
            proof {
                lemma_entries_bytes_take(self.entries@, i as int);
            }
            total = sat_add(total, self.entries[i].size_bytes);
            i = i + 1;
        }
        proof {
            assert(self.entries@.take(n as int) =~= self.entries@);
        }
        total
    }

    /// The index of the entry the policy evicts next: the one with the
    /// smallest access stamp under LRU, insertion stamp under FIFO.
    fn eviction_victim(&self) -> (r: usize)
        requires
            self.spec_entries().len() > 0,
        ensures
            r < self.spec_entries().len(),
            forall|i: int|
                0 <= i < self.spec_entries().len() ==> policy_stamp(
                    self.spec_entries()[r as int],
                    self.spec_config().use_lru_eviction,
                ) <= policy_stamp(
                    #[trigger] self.spec_entries()[i],
                    self.spec_config().use_lru_eviction,
                ),
    {
        let lru = self.config.use_lru_eviction;
        let n = self.entries.len();
        let mut m: usize = 0;
        let mut i: usize = 1;
        while i < n
            invariant
                0 <= m < i <= n,
                n == self.entries@.len(),
                lru == self.spec_config().use_lru_eviction,
                forall|j: int|
                    0 <= j < i ==> policy_stamp(self.entries@[m as int], lru) <= policy_stamp(
                        #[trigger] self.entries@[j],
                        lru,
                    ),
            decreases n - i,
        {
            let cur = if lru {
                self.entries[i].accessed_stamp
            } else {
                self.entries[i].inserted_stamp
            };
            let best = if lru {
                self.entries[m].accessed_stamp
            } else {
                self.entries[m].inserted_stamp
            };
            if cur < best {
                m = i;
            }
            i = i + 1;
        }
        m
    }

    /// The position of the entry under the key, if one is stored.
    fn find_index(&self, file_hash: &str, mir_hash: &str) -> (r: Option<usize>)
        ensures
            r matches Some(i) ==> i < self.spec_entries().len() && same_key(
                self.spec_entries()[i as int],
                file_hash@,
                mir_hash@,
            ),
            r is None ==> !cache_has(self.spec_entries(), file_hash@, mir_hash@),
    {
        let n = self.entries.len();
        let mut i: usize = 0;
        while i < n
            invariant
                0 <= i <= n,
                n == self.entries@.len(),
                forall|j: int|
                    0 <= j < i ==> !same_key(#[trigger] self.entries@[j], file_hash@, mir_hash@),
            decreases n - i,
        {
            let fh_eq = str_eq(self.entries[i].file_hash.as_str(), file_hash);
            let mh_eq = str_eq(self.entries[i].mir_hash.as_str(), mir_hash);
            if fh_eq && mh_eq {
                return Some(i);
            }
            i = i + 1;
        }
        proof {
            if cache_has(self.entries@, file_hash@, mir_hash@) {
                let w = cache_index(self.entries@, file_hash@, mir_hash@);
                assert(0 <= w < self.entries@.len() && same_key(
                    self.entries@[w],
                    file_hash@,
                    mir_hash@,
                ));
                assert(false);
            }
        }
        None
    }

    /// Stores or replaces the entry under the key, then evicts entries —
    /// least-recently-used first, or earliest-inserted under FIFO — until
    /// the store is back under its entry-count and memory budgets.
    pub fn insert(
        &mut self,
        file_hash: String,
        mir_hash: String,
        record: Function,
        file_mtime: Option<u64>,
    )
        requires
            old(self).wf(),
        ensures
            final(self).wf(),
            final(self).spec_config() == old(self).spec_config(),
            final(self).spec_hits() == old(self).spec_hits(),
            final(self).spec_misses() == old(self).spec_misses(),
            final(self).spec_evictions() >= old(self).spec_evictions(),
            // The store is back under budget.
            final(self).spec_entries().len() <= old(self).spec_config().max_entries,
            min_sat(entries_bytes(final(self).spec_entries())) <= old(
                self,
            ).spec_config().max_memory_bytes,
            // With room for it under both budgets, the stored entry survives.
            old(self).spec_entries().len() + 1 <= old(self).spec_config().max_entries
                && entries_bytes(old(self).spec_entries()) + spec_function_size(record) <= old(
                self,
            ).spec_config().max_memory_bytes ==> cache_has(
                final(self).spec_entries(),
                file_hash@,
                mir_hash@,
            ),
            // Every surviving entry is the upserted one or was already stored.
            forall|i: int|
                0 <= i < final(self).spec_entries().len() ==> {
                    let e = #[trigger] final(self).spec_entries()[i];
                    (same_key(e, file_hash@, mir_hash@) && e.record == record && e.file_mtime
                        == file_mtime && e.inserted_stamp == old(self).spec_clock()
                        && e.accessed_stamp == old(self).spec_clock()) || (exists|j: int|
                        0 <= j < old(self).spec_entries().len() && old(self).spec_entries()[j] == e
                            && !same_key(e, file_hash@, mir_hash@))
                },
            // Eviction order: an entry that was stored and is gone now is no
            // younger, under the configured policy, than anything kept.
            forall|j: int|
                0 <= j < old(self).spec_entries().len() && !cache_has(
                    final(self).spec_entries(),
                    (#[trigger] old(self).spec_entries()[j]).file_hash@,
                    old(self).spec_entries()[j].mir_hash@,
                ) && !same_key(old(self).spec_entries()[j], file_hash@, mir_hash@) ==> forall|
                    i: int,
                |
                    0 <= i < final(self).spec_entries().len() ==> policy_stamp(
                        old(self).spec_entries()[j],
                        old(self).spec_config().use_lru_eviction,
                    ) <= policy_stamp(
                        #[trigger] final(self).spec_entries()[i],
                        old(self).spec_config().use_lru_eviction,
                    ),
    {
        let ghost fh = file_hash@;
        let ghost mh = mir_hash@;
        let ghost old_entries = self.entries@;
        let now = self.clock;
        if self.clock < 0xffff_ffff_ffff_ffffu64 {
            self.clock = self.clock + 1;
        }
        let found = self.find_index(file_hash.as_str(), mir_hash.as_str());
        let size = function_size_estimate(&record);
        let ghost record_size = spec_function_size(record);
        let ghost under_budget = old_entries.len() + 1 <= self.config.max_entries
            && entries_bytes(old_entries) + record_size <= self.config.max_memory_bytes;
        let entry = CacheEntry {
            file_hash,
            mir_hash,
            record,
            file_mtime,
            size_bytes: size,
            inserted_stamp: now,
            accessed_stamp: now,
        };
        match found {
            Some(i) => {
                proof {
                    assert(same_key(old_entries[i as int], fh, mh));
                }
                let _old_entry = self.entries.remove(i);
                self.entries.insert(i, entry);
                proof {
                    assert forall|a: int, b: int|
                        0 <= a < b < self.entries@.len() implies !((
                    #[trigger] self.entries@[a]).file_hash@ == (
                    #[trigger] self.entries@[b]).file_hash@ && self.entries@[a].mir_hash@
                        == self.entries@[b].mir_hash@) by {
                        if a != i as int && b != i as int {
                            assert(self.entries@[a] == old_entries[a]
                                && self.entries@[b] == old_entries[b]);
                        } else if a == i as int {
                            assert(self.entries@[b] == old_entries[b]);
                            assert(same_key(self.entries@[a], fh, mh));
                        } else {
                            assert(self.entries@[a] == old_entries[a]);
                            assert(same_key(self.entries@[b], fh, mh));
                        }
                    }
                }
            },
            None => {
                self.entries.push(entry);
                proof {
                    assert forall|a: int, b: int|
                        0 <= a < b < self.entries@.len() implies !((
                    #[trigger] self.entries@[a]).file_hash@ == (
                    #[trigger] self.entries@[b]).file_hash@ && self.entries@[a].mir_hash@
                        == self.entries@[b].mir_hash@) by {
                        if b == self.entries@.len() - 1 {
                            assert(self.entries@[a] == old_entries[a]);
                            if same_key(old_entries[a], fh, mh) {
                                assert(cache_has(old_entries, fh, mh));
                                assert(false);
                            }
                        } else {
                            assert(self.entries@[a] == old_entries[a]
                                && self.entries@[b] == old_entries[b]);
                        }
                    }
                }
            },
        }
        let ghost upserted = self.entries@;
        proof {
            // Every upserted entry is the new entry or an old one with a
            // different key.
            assert forall|i: int| 0 <= i < upserted.len() implies ((same_key(
                #[trigger] upserted[i],
                fh,
                mh,
            ) && upserted[i].record == entry.record && upserted[i].file_mtime == entry.file_mtime
                && upserted[i].inserted_stamp == now && upserted[i].accessed_stamp == now) || (
            exists|j: int|
                0 <= j < old_entries.len() && old_entries[j] == upserted[i] && !same_key(
                    upserted[i],
                    fh,
                    mh,
                ))) by {
                match found {
                    Some(fi) => {
                        if i != fi as int {
                            assert(upserted[i] == old_entries[i]);
                            if same_key(old_entries[i], fh, mh) {
                                if i < fi as int {
                                    assert(false);
                                } else {
                                    assert(false);
                                }
                            }
                        }
                    },
                    None => {
                        if i < old_entries.len() {
                            assert(upserted[i] == old_entries[i]);
                            if same_key(old_entries[i], fh, mh) {
                                assert(cache_has(old_entries, fh, mh));
                                assert(false);
                            }
                        }
                    },
                }
            }
            // Stamps stay below the clock.
            assert forall|i: int| 0 <= i < upserted.len() implies (
            #[trigger] upserted[i]).accessed_stamp <= self.clock && upserted[i].inserted_stamp
                <= self.clock by {
                match found {
                    Some(fi) => {
                        if i != fi as int {
                            assert(upserted[i] == old_entries[i]);
                        }
                    },
                    None => {
                        if i < old_entries.len() {
                            assert(upserted[i] == old_entries[i]);
                        }
                    },
                }
            }
        }
        proof {
            // The upsert never grows the store by more than the new entry.
            lemma_entries_bytes_nonneg(old_entries);
            lemma_blocks_cost_nonneg(entry.record.basic_blocks@);
            lemma_decls_cost_nonneg(entry.record.decls@);
            assert(size <= record_size);
            match found {
                Some(fi) => {
                    lemma_entries_bytes_remove(old_entries, fi as int);
                    lemma_entries_bytes_insert(old_entries.remove(fi as int), fi as int, entry);
                    assert(entries_bytes(upserted) <= entries_bytes(old_entries) + size);
                    assert(same_key(upserted[fi as int], fh, mh));
                    assert(cache_has(upserted, fh, mh));
                },
                None => {
                    lemma_entries_bytes_push(old_entries, entry);
                    assert(entries_bytes(upserted) <= entries_bytes(old_entries) + size);
                    assert(same_key(upserted[upserted.len() - 1], fh, mh));
                    assert(cache_has(upserted, fh, mh));
                },
            }
            if under_budget {
                assert(upserted.len() <= self.config.max_entries);
                assert(entries_bytes(upserted) <= self.config.max_memory_bytes);
            }
        }
        let max_entries = self.config.max_entries;
        let max_memory = self.config.max_memory_bytes;
        let mut used = self.used_bytes();
        while self.entries.len() > max_entries || used > max_memory
            invariant
                self.wf(),
                fh == file_hash@,
                mh == mir_hash@,
                under_budget == (old(self).spec_entries().len() + 1 <= old(
                    self,
                ).spec_config().max_entries && entries_bytes(old(self).spec_entries())
                    + spec_function_size(record) <= old(self).spec_config().max_memory_bytes),
                under_budget ==> self.entries@.len() <= max_entries && entries_bytes(self.entries@)
                    <= max_memory && cache_has(self.entries@, fh, mh),
                entries_bytes(self.entries@) >= 0,
                self.config == old(self).spec_config(),
                max_entries == self.config.max_entries,
                max_memory == self.config.max_memory_bytes,
                self.hits == old(self).spec_hits(),
                self.misses == old(self).spec_misses(),
                self.evictions >= old(self).spec_evictions(),
                self.clock >= old(self).spec_clock(),
                used == min_sat(entries_bytes(self.entries@)),
                cache_keys_unique(upserted),
                forall|i: int|
                    0 <= i < self.entries@.len() ==> exists|j: int|
                        0 <= j < upserted.len() && upserted[j] == #[trigger] self.entries@[i],
                forall|j: int|
                    0 <= j < upserted.len() && !cache_has(
                        self.entries@,
                        (#[trigger] upserted[j]).file_hash@,
                        upserted[j].mir_hash@,
                    ) ==> forall|i: int|
                        0 <= i < self.entries@.len() ==> policy_stamp(
                            upserted[j],
                            self.config.use_lru_eviction,
                        ) <= policy_stamp(
                            #[trigger] self.entries@[i],
                            self.config.use_lru_eviction,
                        ),
            decreases self.entries.len(),
        {
            proof {
                // Under budget nothing is ever evicted: the loop condition
                // cannot hold.
                if under_budget {
                    assert(used == entries_bytes(self.entries@));
                    assert(false);
                }
            }
            let ghost cur = self.entries@;
            let v = self.eviction_victim();
            let _victim = self.entries.remove(v);
            self.evictions = if self.evictions < 0xffff_ffff_ffff_ffffu64 {
                self.evictions + 1
            } else {
                self.evictions
            };
            used = self.used_bytes();
            proof {
                lemma_entries_bytes_nonneg(self.entries@);
                // Well-formedness survives removal.
                assert forall|a: int, b: int|
                    0 <= a < b < self.entries@.len() implies !((
                #[trigger] self.entries@[a]).file_hash@ == (
                #[trigger] self.entries@[b]).file_hash@ && self.entries@[a].mir_hash@
                    == self.entries@[b].mir_hash@) by {
                    let a0 = if a < v as int {
                        a
                    } else {
                        a + 1
                    };
                    let b0 = if b < v as int {
                        b
                    } else {
                        b + 1
                    };
                    assert(self.entries@[a] == cur[a0] && self.entries@[b] == cur[b0]);
                }
                assert forall|i: int| 0 <= i < self.entries@.len() implies (
                #[trigger] self.entries@[i]).accessed_stamp <= self.clock
                    && self.entries@[i].inserted_stamp <= self.clock by {
                    let i0 = if i < v as int {
                        i
                    } else {
                        i + 1
                    };
                    assert(self.entries@[i] == cur[i0]);
                }
                // Every remaining entry still comes from the upserted list.
                assert forall|i: int| 0 <= i < self.entries@.len() implies exists|j: int|
                    0 <= j < upserted.len() && upserted[j] == #[trigger] self.entries@[i] by {
                    let i0 = if i < v as int {
                        i
                    } else {
                        i + 1
                    };
                    assert(self.entries@[i] == cur[i0]);
                }
                // Everything now missing is no younger than everything kept.
                assert forall|j: int|
                    0 <= j < upserted.len() && !cache_has(
                        self.entries@,
                        (#[trigger] upserted[j]).file_hash@,
                        upserted[j].mir_hash@,
                    ) implies forall|i: int|
                        0 <= i < self.entries@.len() ==> policy_stamp(
                            upserted[j],
                            self.config.use_lru_eviction,
                        ) <= policy_stamp(
                            #[trigger] self.entries@[i],
                            self.config.use_lru_eviction,
                        ) by {
                    if cache_has(cur, upserted[j].file_hash@, upserted[j].mir_hash@) {
                        // The entry was just removed: it is the victim, the
                        // minimum under the policy.
                        let w = choose|w: int|
                            0 <= w < cur.len() && same_key(
                                #[trigger] cur[w],
                                upserted[j].file_hash@,
                                upserted[j].mir_hash@,
                            );
                        assert(w == v as int) by {
                            if w != v as int {
                                let w2 = if w < v as int {
                                    w
                                } else {
                                    w - 1
                                };
                                assert(self.entries@[w2] == cur[w]);
                                assert(cache_has(
                                    self.entries@,
                                    upserted[j].file_hash@,
                                    upserted[j].mir_hash@,
                                ));
                                assert(false);
                            }
                        }
                        assert(upserted[j] == cur[v as int]) by {
                            // The victim comes from the upserted list, and
                            // keys are unique there, so it is entry j itself.
                            assert(exists|jj: int|
                                0 <= jj < upserted.len() && upserted[jj] == cur[v as int]);
                            let jj = choose|jj: int|
                                0 <= jj < upserted.len() && upserted[jj] == cur[v as int];
                            assert(same_key(
                                upserted[jj],
                                upserted[j].file_hash@,
                                upserted[j].mir_hash@,
                            ));
                            if jj != j {
                                assert(false);
                            }
                        }
                        assert forall|i: int| 0 <= i < self.entries@.len() implies policy_stamp(
                            upserted[j],
                            self.config.use_lru_eviction,
                        ) <= policy_stamp(
                            #[trigger] self.entries@[i],
                            self.config.use_lru_eviction,
                        ) by {
                            let i0 = if i < v as int {
                                i
                            } else {
                                i + 1
                            };
                            assert(self.entries@[i] == cur[i0]);
                        }
                    } else {
                        assert forall|i: int| 0 <= i < self.entries@.len() implies policy_stamp(
                            upserted[j],
                            self.config.use_lru_eviction,
                        ) <= policy_stamp(
                            #[trigger] self.entries@[i],
                            self.config.use_lru_eviction,
                        ) by {
                            let i0 = if i < v as int {
                                i
                            } else {
                                i + 1
                            };
                            assert(self.entries@[i] == cur[i0]);
                        }
                    }
                }
            }
        }
        proof {
            // Translate the loop's upserted-relative facts to the caller's
            // old-entries view.
            assert forall|i: int| 0 <= i < self.entries@.len() implies {
                let e = #[trigger] self.entries@[i];
                (same_key(e, fh, mh) && e.record == entry.record && e.file_mtime
                    == entry.file_mtime && e.inserted_stamp == now && e.accessed_stamp == now) || (
                exists|j: int|
                    0 <= j < old_entries.len() && old_entries[j] == e && !same_key(e, fh, mh))
            } by {
                let j = choose|j: int|
                    0 <= j < upserted.len() && upserted[j] == #[trigger] self.entries@[i];
            }
            assert forall|j: int|
                0 <= j < old_entries.len() && !cache_has(
                    self.entries@,
                    (#[trigger] old_entries[j]).file_hash@,
                    old_entries[j].mir_hash@,
                ) && !same_key(old_entries[j], fh, mh) implies forall|i: int|
                    0 <= i < self.entries@.len() ==> policy_stamp(
                        old_entries[j],
                        self.config.use_lru_eviction,
                    ) <= policy_stamp(
                        #[trigger] self.entries@[i],
                        self.config.use_lru_eviction,
                    ) by {
                // An old entry with another key survived the upsert
                // unchanged, so the loop invariant covers it.
                match found {
                    Some(fi) => {
                        if j != fi as int {
                            assert(upserted[j] == old_entries[j]);
                        } else {
                            assert(same_key(old_entries[j], fh, mh));
                        }
                    },
                    None => {
                        assert(upserted[j] == old_entries[j]);
                    },
                }
            }
        }
    }
}


/// Deep equality of two cache entries up to the stored record's contents.
pub open spec fn entry_matches(a: CacheEntry, b: CacheEntry) -> bool {
    &&& a.file_hash@ == b.file_hash@
    &&& a.mir_hash@ == b.mir_hash@
    &&& crate::models::function_matches(a.record, b.record)
    &&& a.file_mtime == b.file_mtime
    &&& a.size_bytes == b.size_bytes
    &&& a.inserted_stamp == b.inserted_stamp
    &&& a.accessed_stamp == b.accessed_stamp
}

impl ResultCache {
    /// Copies the stored entries out, for flushing to persistent storage at
    /// the end of a run.
    pub fn dump_entries(&self) -> (r: Vec<CacheEntry>)
        ensures
            r@.len() == self.spec_entries().len(),
            forall|i: int|
                0 <= i < r@.len() ==> entry_matches(#[trigger] r@[i], self.spec_entries()[i]),
    {
        let n = self.entries.len();
        let mut out: Vec<CacheEntry> = Vec::new();
        let mut i: usize = 0;
        while i < n
            invariant
                0 <= i <= n,
                n == self.entries@.len(),
                out@.len() == i,
                forall|j: int|
                    0 <= j < i ==> entry_matches(#[trigger] out@[j], self.entries@[j]),
            decreases n - i,
        {
            let e = &self.entries[i];
            let copy = CacheEntry {
                file_hash: e.file_hash.clone(),
                mir_hash: e.mir_hash.clone(),
                record: crate::models::clone_function(&e.record),
                file_mtime: e.file_mtime,
                size_bytes: e.size_bytes,
                inserted_stamp: e.inserted_stamp,
                accessed_stamp: e.accessed_stamp,
            };
            out.push(copy);
            i = i + 1;
        }
        out
    }
}

} // verus!
