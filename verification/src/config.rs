//! Resource defaults, the image catalog, and the interpretation of the
//! numeric settings that the environment may override.
use vstd::prelude::*;
use crate::text::{str_eq, is_white, white, trim_start, has_prefix, lines_of, text_lines, starts_with_text, substring, trimmed, trim_text};
use crate::store::opt_str_view;
use crate::seqs::{first_index, lemma_first_index};

verus! {

pub const DEFAULT_CPU: i64 = 2;
pub const DEFAULT_MEMORY_MB: i64 = 1024;
pub const DEFAULT_DISK_SIZE_GB: i64 = 8;
pub const DEFAULT_WORKDIR: &'static str = "/root";
pub const DEFAULT_IMAGE: &'static str = "ubuntu:24.04";

/// One entry of the image catalog: an alias, the image it stands for,
/// and a description.
pub struct ImageEntry {
    pub alias: &'static str,
    pub image: &'static str,
    pub description: &'static str,
}

/// The aliases of the catalog, in the order `image_catalog` lists them.
pub open spec fn catalog_aliases() -> Seq<Seq<char>> {
    seq!["default"@, "ubuntu"@, "python"@, "node"@, "golang"@, "rust"@, "alpine"@]
}

/// The image an alias stands for, if it is in the catalog.
pub open spec fn catalog_image(alias: Seq<char>) -> Option<Seq<char>> {
    if alias == "default"@ { Some("ubuntu:24.04"@) }
    else if alias == "ubuntu"@ { Some("ubuntu:24.04"@) }
    else if alias == "python"@ { Some("python:3.12-slim"@) }
    else if alias == "node"@ { Some("node:22-slim"@) }
    else if alias == "golang"@ { Some("golang:1.22"@) }
    else if alias == "rust"@ { Some("rust:1.77-slim"@) }
    else if alias == "alpine"@ { Some("alpine:3.20"@) }
    else { None }
}

/// The description of an alias of the catalog.
pub open spec fn catalog_description(alias: Seq<char>) -> Option<Seq<char>> {
    if alias == "default"@ { Some("Ubuntu 24.04 (general purpose, recommended)"@) }
    else if alias == "ubuntu"@ { Some("Ubuntu 24.04 LTS"@) }
    else if alias == "python"@ { Some("Python 3.12 pre-installed"@) }
    else if alias == "node"@ { Some("Node.js 22 LTS pre-installed"@) }
    else if alias == "golang"@ { Some("Go 1.22 pre-installed"@) }
    else if alias == "rust"@ { Some("Rust 1.77 pre-installed"@) }
    else if alias == "alpine"@ { Some("Lightweight Linux (5MB)"@) }
    else { None }
}

/// The image name that a user-given name resolves to.
pub open spec fn resolved_image(name: Seq<char>) -> Seq<char> {
    match catalog_image(name) {
        Some(image) => image,
        None => name,
    }
}

/// The catalog of recommended images and their aliases.
pub fn image_catalog() -> (entries: Vec<ImageEntry>)
    ensures
        entries@.len() == catalog_aliases().len(),
        forall|i: int| 0 <= i < entries@.len() ==> {
            &&& (#[trigger] entries@[i]).alias@ == catalog_aliases()[i]
            &&& catalog_image(entries@[i].alias@) == Some(entries@[i].image@)
            &&& catalog_description(entries@[i].alias@) == Some(entries@[i].description@)
        },
{
    let mut v: Vec<ImageEntry> = Vec::new();
    v.push(ImageEntry { alias: "default", image: "ubuntu:24.04", description: "Ubuntu 24.04 (general purpose, recommended)" });
    v.push(ImageEntry { alias: "ubuntu", image: "ubuntu:24.04", description: "Ubuntu 24.04 LTS" });
    v.push(ImageEntry { alias: "python", image: "python:3.12-slim", description: "Python 3.12 pre-installed" });
    v.push(ImageEntry { alias: "node", image: "node:22-slim", description: "Node.js 22 LTS pre-installed" });
    v.push(ImageEntry { alias: "golang", image: "golang:1.22", description: "Go 1.22 pre-installed" });
    v.push(ImageEntry { alias: "rust", image: "rust:1.77-slim", description: "Rust 1.77 pre-installed" });
    v.push(ImageEntry { alias: "alpine", image: "alpine:3.20", description: "Lightweight Linux (5MB)" });
    proof {
        reveal_strlit("ubuntu:24.04");
        reveal_strlit("default");
        reveal_strlit("ubuntu");
        reveal_strlit("python");
        reveal_strlit("node");
        reveal_strlit("golang");
        reveal_strlit("rust");
        reveal_strlit("alpine");
        assert("default"@[0] == 'd' && "ubuntu"@[0] == 'u' && "python"@[0] == 'p' && "node"@[0] == 'n');
        assert("golang"@[0] == 'g' && "rust"@[0] == 'r' && "alpine"@[0] == 'a');
        assert("default"@ != "ubuntu"@);
        assert("default"@ != "python"@);
        assert("python"@ != "ubuntu"@);
        assert("node"@ != "ubuntu"@ && "node"@ != "python"@ && "node"@ != "default"@);
        assert("golang"@ != "ubuntu"@ && "golang"@ != "python"@ && "golang"@ != "default"@ && "golang"@ != "node"@);
        assert("rust"@ != "ubuntu"@ && "rust"@ != "python"@ && "rust"@ != "default"@ && "rust"@ != "node"@ && "rust"@ != "golang"@);
        assert("alpine"@ != "ubuntu"@ && "alpine"@ != "python"@ && "alpine"@ != "default"@ && "alpine"@ != "node"@ && "alpine"@ != "golang"@ && "alpine"@ != "rust"@);
        assert forall|i: int| 0 <= i < v@.len() implies {
            &&& (#[trigger] v@[i]).alias@ == catalog_aliases()[i]
            &&& catalog_image(v@[i].alias@) == Some(v@[i].image@)
        } by {
            if i == 0 {} else if i == 1 {} else if i == 2 {} else if i == 3 {} else if i == 4 {} else if i == 5 {} else {}
        }
    }
    v
}

/// Whether the catalog holds an alias.
pub fn catalog_contains(alias: &str) -> (r: bool)
    ensures
        r == (catalog_image(alias@) is Some),
{
    catalog_lookup(alias).is_some()
}

/// The image that a catalog alias stands for.
pub fn catalog_lookup(alias: &str) -> (r: Option<&'static str>)
    ensures
        match r {
            Some(image) => catalog_image(alias@) == Some(image@),
            None => catalog_image(alias@) is None,
        },
{
    if str_eq(alias, "default") { Some("ubuntu:24.04") }
    else if str_eq(alias, "ubuntu") { Some("ubuntu:24.04") }
    else if str_eq(alias, "python") { Some("python:3.12-slim") }
    else if str_eq(alias, "node") { Some("node:22-slim") }
    else if str_eq(alias, "golang") { Some("golang:1.22") }
    else if str_eq(alias, "rust") { Some("rust:1.77-slim") }
    else if str_eq(alias, "alpine") { Some("alpine:3.20") }
    else { None }
}

/// Resolves an alias to a full image name, or returns the name as it is.
pub fn resolve_image(name: &str) -> (r: String)
    ensures
        r@ == resolved_image(name@),
{
    match catalog_lookup(name) {
        Some(image) => image.to_owned(),
        None => name.to_owned(),
    }
}

/// The default number of CPUs of a box.
pub fn default_cpu() -> (r: i64)
    ensures
        r == DEFAULT_CPU,
{
    DEFAULT_CPU
}

/// The default memory of a box, in MB.
pub fn default_memory_mb() -> (r: i64)
    ensures
        r == DEFAULT_MEMORY_MB,
{
    DEFAULT_MEMORY_MB
}

/// The default disk size of a box, in GB.
pub fn default_disk_size_gb() -> (r: i64)
    ensures
        r == DEFAULT_DISK_SIZE_GB,
{
    DEFAULT_DISK_SIZE_GB
}

/// The default working directory of a box.
pub fn default_workdir() -> (r: String)
    ensures
        r@ == DEFAULT_WORKDIR@,
{
    DEFAULT_WORKDIR.to_owned()
}

/// The value of a decimal digit character.
pub open spec fn digit_value(c: char) -> int {
    (c as int) - ('0' as int)
}

pub open spec fn is_digit(c: char) -> bool {
    '0' <= c && c <= '9'
}

/// The natural number that a non-empty run of decimal digits denotes.
pub open spec fn digits_value(s: Seq<char>) -> int
    decreases s.len(),
{
    if s.len() == 0 {
        0
    } else {
        digits_value(s.drop_last()) * 10 + digit_value(s.last())
    }
}

/// The sign and the digit run of a number's text: a leading '-' makes
/// it negative, a leading '+' is dropped.
pub open spec fn sign_split(s: Seq<char>) -> (bool, Seq<char>) {
    if s.len() > 0 && s[0] == '-' {
        (true, s.drop_first())
    } else if s.len() > 0 && s[0] == '+' {
        (false, s.drop_first())
    } else {
        (false, s)
    }
}

pub open spec fn all_digits(s: Seq<char>) -> bool {
    forall|i: int| 0 <= i < s.len() ==> is_digit(#[trigger] s[i])
}

/// The integer that `str::parse::<i64>` reads from a text: an optional
/// sign, then one or more decimal digits, within the range of `i64`.
pub open spec fn parsed_i64(s: Seq<char>) -> Option<int> {
    let negative = sign_split(s).0;
    let digits = sign_split(s).1;
    if digits.len() == 0 || !all_digits(digits) {
        None
    } else {
        let v = if negative { -digits_value(digits) } else { digits_value(digits) };
        if i64::MIN <= v <= i64::MAX { Some(v) } else { None }
    }
}

proof fn lemma_digits_value_nonneg(s: Seq<char>)
    requires
        forall|i: int| 0 <= i < s.len() ==> is_digit(#[trigger] s[i]),
    ensures
        digits_value(s) >= 0,
    decreases s.len(),
{
    if s.len() > 0 {
        assert forall|i: int| 0 <= i < s.drop_last().len() implies is_digit(#[trigger] s.drop_last()[i]) by {
            assert(s.drop_last()[i] == s[i]);
        }
        lemma_digits_value_nonneg(s.drop_last());
        assert(is_digit(s[s.len() - 1]));
    }
}

proof fn lemma_digits_value_prefix_grows(s: Seq<char>, k: int)
    requires
        0 <= k <= s.len(),
        forall|i: int| 0 <= i < s.len() ==> is_digit(#[trigger] s[i]),
    ensures
        digits_value(s.subrange(0, k)) <= digits_value(s),
    decreases s.len() - k,
{
    if k < s.len() {
        lemma_digits_value_prefix_grows(s, k + 1);
        let p = s.subrange(0, k + 1);
        assert(p.drop_last() =~= s.subrange(0, k));
        assert forall|i: int| 0 <= i < s.subrange(0, k).len() implies is_digit(#[trigger] s.subrange(0, k)[i]) by {
            assert(s.subrange(0, k)[i] == s[i]);
        }
        lemma_digits_value_nonneg(s.subrange(0, k));
        assert(is_digit(s[k]));
        assert(p.last() == s[k]);
    } else {
        assert(s.subrange(0, k) =~= s);
    }
}

/// Reads a decimal integer as `str::parse::<i64>` does.
pub fn parse_i64(text: &str) -> (r: Option<i64>)
    ensures
        match r {
            Some(v) => parsed_i64(text@) == Some(v as int),
            None => parsed_i64(text@) is None,
        },
{
    let n = text.unicode_len();
    let mut start: usize = 0;
    let mut negative = false;
    if n > 0 {
        let c0 = text.get_char(0);
        if c0 == '-' {
            negative = true;
            start = 1;
        } else if c0 == '+' {
            start = 1;
        }
    }
    let ghost digits = text@.subrange(start as int, n as int);
    proof {
        if n > 0 && (text@[0] == '-' || text@[0] == '+') {
            assert(digits =~= text@.drop_first());
        } else {
            assert(digits =~= text@);
        }
        assert(sign_split(text@) == (negative, digits));
    }
    if start == n {
        return None;
    }
    // Accumulate the magnitude as a value of at most 2^63, the largest
    // magnitude that can fit.
    let limit: u64 = if negative { 9223372036854775808u64 } else { 9223372036854775807u64 };
    let mut acc: u64 = 0;
    let mut i: usize = start;
    while i < n
        invariant
            n == text@.len(),
            start <= i <= n,
            start < n,
            digits == text@.subrange(start as int, n as int),
            sign_split(text@) == (negative, digits),
            forall|j: int| 0 <= j < i - start ==> is_digit(#[trigger] digits[j]),
            acc as int == digits_value(digits.subrange(0, i - start)),
            acc <= limit,
            limit == (if negative { 9223372036854775808u64 } else { 9223372036854775807u64 }),
        decreases n - i,
    {
        let c = text.get_char(i);
        let ghost k: int = i - start;
        assert(digits[k] == c);
        if !('0' <= c && c <= '9') {
            proof {
                assert(!is_digit(digits[k]));
                assert(!all_digits(digits));
            }
            return None;
        }
        let d: u64 = ((c as u32) - ('0' as u32)) as u64;
        proof {
            let p = digits.subrange(0, k + 1);
            assert(p.drop_last() =~= digits.subrange(0, k));
            assert(p.last() == c);
        }
        if acc > (limit - d) / 10 {
            proof {
                // The value already exceeds the limit, and only grows.
                assert(acc as int * 10 + d as int > limit as int) by (nonlinear_arith)
                    requires acc as int > (limit as int - d as int) / 10, d <= 9, limit >= 9;
                assert(digits_value(digits.subrange(0, k + 1)) > limit as int);
                // Either a later character is not a digit, or the whole run is out of range.
                if all_digits(digits) {
                    lemma_digits_value_prefix_grows(digits, k + 1);
                    assert(digits_value(digits) > limit as int);
                }
            }
            return None;
        }
        proof {
            assert(acc as int * 10 + d as int <= limit as int) by (nonlinear_arith)
                requires acc as int <= (limit as int - d as int) / 10, d <= 9, limit >= 9;
        }
        acc = acc * 10 + d;
        i = i + 1;
    }
    proof {
        assert(digits.subrange(0, n - start) =~= digits);
        assert(all_digits(digits));
    }
    if negative {
        if acc == 9223372036854775808u64 {
            Some(i64::MIN)
        } else {
            Some(-(acc as i64))
        }
    } else {
        Some(acc as i64)
    }
}

/// How a numeric limit override reads.
pub enum IntSetting {
    /// A positive value, which takes effect.
    Positive(i64),
    /// A value that is zero or negative, which is ignored with a warning.
    NotPositive(i64),
    /// Text that is no integer, which is ignored with a warning.
    Invalid,
}

/// Classifies the text of a numeric limit override.
pub fn classify_int_setting(raw: &str) -> (r: IntSetting)
    ensures
        match parsed_i64(raw@) {
            Some(v) => if v > 0 { r == IntSetting::Positive(v as i64) } else { r == IntSetting::NotPositive(v as i64) },
            None => r == IntSetting::Invalid,
        },
{
    match parse_i64(raw) {
        Some(v) => if v > 0 { IntSetting::Positive(v) } else { IntSetting::NotPositive(v) },
        None => IntSetting::Invalid,
    }
}

/// The limit that a setting gives: its value when it is present and
/// positive, else the detected default.
pub fn setting_or_default(raw: Option<&str>, default: i64) -> (r: i64)
    ensures
        r == match raw {
            Some(t) => match parsed_i64(t@) {
                Some(v) => if v > 0 { v } else { default as int },
                None => default as int,
            },
            None => default as int,
        },
{
    match raw {
        Some(t) => match classify_int_setting(t) {
            IntSetting::Positive(v) => v,
            _ => default,
        },
        None => default,
    }
}

/// The number of CPUs of this machine, as `num_cpus::get` reports it.
#[verifier::external_body]
fn cpu_count() -> (n: usize)
    ensures
        n >= 1,
{
    num_cpus::get()
}

/// The CPU limit that a CPU count gives: the count itself, or the largest
/// `i64` for a count beyond it, so that the limit is always positive.
pub fn cpu_limit_of(count: usize) -> (n: i64)
    requires
        count >= 1,
    ensures
        n == if count > i64::MAX { i64::MAX as int } else { count as int },
        n >= 1,
{
    if count as u64 > 9223372036854775807u64 {
        9223372036854775807i64
    } else {
        count as i64
    }
}

/// The CPU count detected on this host. The count is the machine's, so only
/// what `num_cpus::get` documents of every outcome, at least one, is stated
/// of it; `cpu_limit_of` states how the count becomes the limit.
pub fn detect_cpu() -> (n: i64)
    ensures
        n >= 1,
{
    let c = cpu_count();
    cpu_limit_of(c)
}

/// The integer that `str::parse::<u64>` reads from a text: an optional
/// '+', then one or more decimal digits, within the range of `u64`.
pub open spec fn parsed_u64(s: Seq<char>) -> Option<int> {
    let digits = if s.len() > 0 && s[0] == '+' { s.drop_first() } else { s };
    if digits.len() == 0 || !all_digits(digits) {
        None
    } else if digits_value(digits) <= u64::MAX {
        Some(digits_value(digits))
    } else {
        None
    }
}

/// Reads a decimal integer as `str::parse::<u64>` does.
pub fn parse_u64(text: &str) -> (r: Option<u64>)
    ensures
        match r {
            Some(v) => parsed_u64(text@) == Some(v as int),
            None => parsed_u64(text@) is None,
        },
{
    let n = text.unicode_len();
    let start: usize = if n > 0 && text.get_char(0) == '+' { 1 } else { 0 };
    let ghost digits = text@.subrange(start as int, n as int);
    proof {
        if n > 0 && text@[0] == '+' {
            assert(digits =~= text@.drop_first());
        } else {
            assert(digits =~= text@);
        }
    }
    if start == n {
        return None;
    }
    let mut acc: u64 = 0;
    let mut i: usize = start;
    while i < n
        invariant
            n == text@.len(),
            start <= i <= n,
            start < n,
            digits == text@.subrange(start as int, n as int),
            digits == (if text@.len() > 0 && text@[0] == '+' { text@.drop_first() } else { text@ }),
            forall|j: int| 0 <= j < i - start ==> is_digit(#[trigger] digits[j]),
            acc as int == digits_value(digits.subrange(0, i - start)),
        decreases n - i,
    {
        let c = text.get_char(i);
        let ghost k: int = i - start;
        assert(digits[k] == c);
        if !('0' <= c && c <= '9') {
            proof {
                assert(!is_digit(digits[k]));
                assert(!all_digits(digits));
            }
            return None;
        }
        let d: u64 = ((c as u32) - ('0' as u32)) as u64;
        proof {
            let p = digits.subrange(0, k + 1);
            assert(p.drop_last() =~= digits.subrange(0, k));
            assert(p.last() == c);
        }
        if acc > (u64::MAX - d) / 10 {
            proof {
                assert(acc as int * 10 + d as int > u64::MAX as int) by (nonlinear_arith)
                    requires acc as int > (u64::MAX as int - d as int) / 10, d <= 9;
                assert(digits_value(digits.subrange(0, k + 1)) > u64::MAX as int);
                if all_digits(digits) {
                    lemma_digits_value_prefix_grows(digits, k + 1);
                }
            }
            return None;
        }
        proof {
            assert(acc as int * 10 + d as int <= u64::MAX as int) by (nonlinear_arith)
                requires acc as int <= (u64::MAX as int - d as int) / 10, d <= 9;
        }
        acc = acc * 10 + d;
        i = i + 1;
    }
    proof {
        assert(digits.subrange(0, n - start) =~= digits);
        assert(all_digits(digits));
    }
    Some(acc)
}

/// Whether a character is white space.
pub open spec fn white_char() -> spec_fn(char) -> bool {
    |c: char| is_white(c)
}

/// Where the first word of a text ends: at its first white space.
pub open spec fn word_end(s: Seq<char>) -> int {
    match first_index(s, white_char()) {
        Some(i) => i,
        None => s.len() as int,
    }
}

/// The second word of a line that starts with a word, as
/// `split_whitespace` gives it.
pub open spec fn second_word(line: Seq<char>) -> Option<Seq<char>> {
    let rest = trim_start(line.subrange(word_end(line), line.len() as int));
    if rest.len() == 0 { None } else { Some(rest.subrange(0, word_end(rest))) }
}

/// The total memory in MB that the first readable `MemTotal:` line gives:
/// its second word read as kilobytes, divided by 1024.
pub open spec fn meminfo_total_mb(lines: Seq<Seq<char>>) -> Option<int>
    decreases lines.len(),
{
    if lines.len() == 0 {
        None
    } else {
        let l = lines[0];
        if has_prefix(l, "MemTotal:"@) && second_word(l) is Some && parsed_u64(second_word(l)->0) is Some {
            Some(parsed_u64(second_word(l)->0)->0 / 1024)
        } else {
            meminfo_total_mb(lines.drop_first())
        }
    }
}

/// The memory that a memory report gives, or 8192 MB when it gives none.
pub open spec fn memory_mb_of(content: Seq<char>) -> int {
    match meminfo_total_mb(lines_of(content)) {
        Some(v) => v,
        None => 8192,
    }
}

fn word_end_at(s: &str) -> (r: usize)
    ensures
        r as int == word_end(s@),
{
    let n = s.unicode_len();
    let mut i: usize = 0;
    while i < n && !white(s.get_char(i))
        invariant
            n == s@.len(),
            i <= n,
            forall|j: int| 0 <= j < i ==> !white_char()(#[trigger] s@[j]),
        decreases n - i,
    {
        i = i + 1;
    }
    proof {
        lemma_first_index(s@, white_char());
        match first_index(s@, white_char()) {
            Some(k) => {
                if k < i {
                    assert(!white_char()(s@[k]));
                } else if k > i {
                    assert(white_char()(s@[i as int]));
                }
            },
            None => {
                if i < n {
                    assert(white_char()(s@[i as int]));
                }
            },
        }
    }
    i
}

fn second_word_of(line: &str) -> (r: Option<String>)
    ensures
        match r {
            Some(w) => second_word(line@) == Some(w@),
            None => second_word(line@) is None,
        },
{
    let n = line.unicode_len();
    let e = word_end_at(line);
    proof {
        lemma_first_index(line@, white_char());
    }
    let rest0 = substring(line, e, n);
    let rest = trim_leading(rest0.as_str());
    let m = rest.unicode_len();
    if m == 0 {
        None
    } else {
        let e2 = word_end_at(rest.as_str());
        proof {
            lemma_first_index(rest@, white_char());
        }
        Some(substring(rest.as_str(), 0, e2))
    }
}

fn trim_leading(s: &str) -> (r: String)
    ensures
        r@ == trim_start(s@),
{
    let n = s.unicode_len();
    let mut a: usize = 0;
    proof {
        assert(s@.subrange(0, n as int) =~= s@);
    }
    while a < n && white(s.get_char(a))
        invariant
            n == s@.len(),
            a <= n,
            trim_start(s@) == trim_start(s@.subrange(a as int, n as int)),
        decreases n - a,
    {
        proof {
            assert(s@.subrange(a as int, n as int).drop_first() =~= s@.subrange(a + 1, n as int));
        }
        a = a + 1;
    }
    substring(s, a, n)
}

/// The memory of this host in MB, from the text of its memory report;
/// 8192 MB when no `MemTotal:` line gives it.
pub fn memory_mb_from_meminfo(content: &str) -> (r: i64)
    ensures
        r as int == memory_mb_of(content@),
{
    proof {
        reveal_strlit("MemTotal:");
    }
    let lines = text_lines(content);
    let ghost ls = lines@.map_values(|x: String| x@);
    let mut i: usize = 0;
    proof {
        assert(ls.skip(0) =~= ls);
    }
    while i < lines.len()
        invariant
            i <= lines@.len(),
            ls == lines@.map_values(|x: String| x@),
            ls == lines_of(content@),
            meminfo_total_mb(ls) == meminfo_total_mb(ls.skip(i as int)),
        decreases lines@.len() - i,
    {
        let l = lines[i].as_str();
        proof {
            assert(ls.skip(i as int)[0] == l@);
            assert(ls.skip(i as int).drop_first() =~= ls.skip(i + 1));
        }
        if starts_with_text(l, "MemTotal:") {
            match second_word_of(l) {
                Some(w) => match parse_u64(w.as_str()) {
                    Some(kb) => {
                        return (kb / 1024) as i64;
                    },
                    None => {},
                },
                None => {},
            }
        }
        i = i + 1;
    }
    proof {
        assert(ls.skip(i as int) =~= Seq::<Seq<char>>::empty());
    }
    8192
}

/// The host's memory in MB from the output of `sysctl -n hw.memsize`: the
/// number of bytes it gives, trimmed of white space, in whole MB.
pub fn memory_mb_from_sysctl(output: &str) -> (r: Option<i64>)
    ensures
        r == match parsed_u64(trimmed(output@)) {
            Some(b) => Some((b / 1048576) as i64),
            None => None,
        },
        r matches Some(v) ==> v as int == parsed_u64(trimmed(output@))->0 / 1048576,
{
    let t = trim_text(output);
    match parse_u64(t.as_str()) {
        Some(b) => Some((b / 1048576) as i64),
        None => None,
    }
}

/// The memory that a host reports, in MB: what `sysctl` gives when its
/// output is a number of bytes, else what the memory report gives, else
/// 8192 MB.
pub open spec fn detected_memory_of(sysctl: Option<Seq<char>>, meminfo: Option<Seq<char>>) -> int {
    match sysctl {
        Some(o) if parsed_u64(trimmed(o)) is Some => parsed_u64(trimmed(o))->0 / 1048576,
        _ => match meminfo {
            Some(c) => memory_mb_of(c) as int,
            None => 8192,
        },
    }
}

/// The host's memory in MB, from the output of `sysctl -n hw.memsize`
/// where the host has it (macOS), else from the text of its memory report
/// (`/proc/meminfo` on Linux), else 8192 MB.
pub fn detect_memory_mb(sysctl: Option<&str>, meminfo: Option<&str>) -> (r: i64)
    ensures
        r == detected_memory_of(opt_str_view(sysctl), opt_str_view(meminfo)),
{
    match sysctl {
        Some(o) => match memory_mb_from_sysctl(o) {
            Some(v) => return v,
            None => {},
        },
        None => {},
    }
    match meminfo {
        Some(c) => memory_mb_from_meminfo(c),
        None => 8192,
    }
}

/// The host's CPU limit: the setting when it is a positive integer, else
/// the CPUs detected on this host.
pub fn max_total_cpu(setting: Option<&str>) -> (r: i64)
    ensures
        r >= 1,
        match setting {
            Some(t) => match parsed_i64(t@) {
                Some(v) => v > 0 ==> r == v,
                None => true,
            },
            None => true,
        },
{
    setting_or_default(setting, detect_cpu())
}

/// The host's memory limit in MB: the setting when it is a positive
/// integer, else the memory that the host reports.
pub fn max_total_memory_mb(setting: Option<&str>, sysctl: Option<&str>, meminfo: Option<&str>) -> (r: i64)
    ensures
        r == match setting {
            Some(t) => match parsed_i64(t@) {
                Some(v) => if v > 0 { v } else { detected_memory_of(opt_str_view(sysctl), opt_str_view(meminfo)) },
                None => detected_memory_of(opt_str_view(sysctl), opt_str_view(meminfo)),
            },
            None => detected_memory_of(opt_str_view(sysctl), opt_str_view(meminfo)),
        },
{
    setting_or_default(setting, detect_memory_mb(sysctl, meminfo))
}

} // verus!
