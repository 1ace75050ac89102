//! The logic of the command line: volume specifications, copy targets,
//! error reports, the tables it prints, and the reading of the event
//! stream of an execution.
use vstd::prelude::*;
use crate::config::{ImageEntry, image_catalog, catalog_aliases, catalog_image, catalog_description};
use crate::json::{debug_text, debug_quoted, error_members, read_error_members, event_members, read_event_members, exit_code_member, read_exit_code};
use crate::models::{Volume, opt_view};
use crate::text::{
    split_seq, split_all, first_index_of, split_once, starts_with_char, str_eq, join2, join3, substring,
    nat_text, int_text, u64_to_text, i64_to_text, padded_right, padded_left, pad_right, pad_left, repeated, repeat_char,
    trimmed, trim_text, lines_of, text_lines, has_prefix, starts_with_text,
};

verus! {

/// The volume that a `/host:/guest[:ro|rw]` specification gives, as its
/// host path, guest path and read-only flag, or why it gives none.
pub open spec fn volume_spec(value: Seq<char>) -> Result<(Seq<char>, Seq<char>, bool), Seq<char>> {
    let parts = split_seq(value, ':');
    if parts.len() < 2 || parts.len() > 3 {
        Err("Invalid volume format: "@ + debug_text(value) + " (expected /host:/guest[:ro])"@)
    } else {
        let host = parts[0];
        let guest = parts[1];
        if host.len() == 0 {
            Err("Host path cannot be empty in volume: "@ + debug_text(value))
        } else if guest.len() == 0 {
            Err("Guest path cannot be empty in volume: "@ + debug_text(value))
        } else if host[0] != '/' {
            Err("Host path must be absolute: "@ + debug_text(host))
        } else if guest[0] != '/' {
            Err("Guest path must be absolute: "@ + debug_text(guest))
        } else if parts.len() == 3 {
            if parts[2] == "ro"@ {
                Ok((host, guest, true))
            } else if parts[2] == "rw"@ {
                Ok((host, guest, false))
            } else {
                Err("Invalid volume mode: "@ + debug_text(parts[2]) + " (expected 'ro' or 'rw')"@)
            }
        } else {
            Ok((host, guest, false))
        }
    }
}

/// A parsed volume as content.
pub open spec fn volume_result(r: Result<Volume, String>) -> Result<(Seq<char>, Seq<char>, bool), Seq<char>> {
    match r {
        Ok(v) => Ok((v.host_path@, v.guest_path@, v.readonly)),
        Err(m) => Err(m@),
    }
}

/// Parses a volume specification `/host:/guest`, `/host:/guest:ro` or
/// `/host:/guest:rw`.
pub fn parse_volume(value: &str) -> (r: Result<Volume, String>)
    ensures
        volume_result(r) == volume_spec(value@),
{
    proof {
        reveal_strlit("ro");
        reveal_strlit("rw");
    }
    let parts = split_all(value, ':');
    if parts.len() < 2 || parts.len() > 3 {
        return Err(join3("Invalid volume format: ", debug_quoted(value).as_str(), " (expected /host:/guest[:ro])"));
    }
    let host = parts[0].as_str();
    let guest = parts[1].as_str();
    proof {
        assert(host@ == split_seq(value@, ':')[0]);
        assert(guest@ == split_seq(value@, ':')[1]);
    }
    if host.unicode_len() == 0 {
        return Err(join2("Host path cannot be empty in volume: ", debug_quoted(value).as_str()));
    }
    if guest.unicode_len() == 0 {
        return Err(join2("Guest path cannot be empty in volume: ", debug_quoted(value).as_str()));
    }
    if !starts_with_char(host, '/') {
        return Err(join2("Host path must be absolute: ", debug_quoted(host).as_str()));
    }
    if !starts_with_char(guest, '/') {
        return Err(join2("Guest path must be absolute: ", debug_quoted(guest).as_str()));
    }
    let readonly = if parts.len() == 3 {
        let mode = parts[2].as_str();
        proof {
            assert(mode@ == split_seq(value@, ':')[2]);
        }
        if str_eq(mode, "ro") {
            true
        } else if str_eq(mode, "rw") {
            false
        } else {
            return Err(join3("Invalid volume mode: ", debug_quoted(mode).as_str(), " (expected 'ro' or 'rw')"));
        }
    } else {
        false
    };
    Ok(Volume { host_path: host.to_owned(), guest_path: guest.to_owned(), readonly })
}

/// Whether a text names a path in a box, `BOX:PATH`: it has a colon, and
/// the part before the first one does not start with '/' or '.'.
pub open spec fn is_remote_spec(s: Seq<char>) -> bool {
    match first_index_of(s, ':') {
        Some(i) => !(i > 0 && (s[0] == '/' || s[0] == '.')),
        None => false,
    }
}

/// Whether a copy argument names a path in a box rather than a local path.
pub fn is_remote_path(s: &str) -> (r: bool)
    ensures
        r == is_remote_spec(s@),
{
    match split_once(s, ':') {
        Some((before, _)) => {
            proof {
                crate::text::lemma_first_index_of(s@, ':');
            }
            !starts_with_char(before.as_str(), '/') && !starts_with_char(before.as_str(), '.')
        },
        None => false,
    }
}

/// What a copy does.
pub enum CopyPlan {
    /// From a box to a local path.
    Download { box_part: String, remote: String },
    /// From a local path to a box.
    Upload { box_part: String, remote: String },
    /// Neither argument names a path in a box.
    Invalid,
}

/// A `BOX:PATH` argument split at its first colon.
pub open spec fn remote_parts(s: Seq<char>) -> (Seq<char>, Seq<char>) {
    match first_index_of(s, ':') {
        Some(i) => (s.subrange(0, i), s.subrange(i + 1, s.len() as int)),
        None => (s, Seq::empty()),
    }
}

/// What copying from `src` to `dst` does: a download when `src` names a
/// path in a box, else an upload when `dst` does, else nothing; with the
/// box and the path in it.
pub open spec fn copy_plan_of(src: Seq<char>, dst: Seq<char>) -> Option<(bool, Seq<char>, Seq<char>)> {
    if is_remote_spec(src) {
        Some((true, remote_parts(src).0, remote_parts(src).1))
    } else if is_remote_spec(dst) {
        Some((false, remote_parts(dst).0, remote_parts(dst).1))
    } else {
        None
    }
}

/// A copy plan as content.
pub open spec fn copy_plan_view(p: CopyPlan) -> Option<(bool, Seq<char>, Seq<char>)> {
    match p {
        CopyPlan::Download { box_part, remote } => Some((true, box_part@, remote@)),
        CopyPlan::Upload { box_part, remote } => Some((false, box_part@, remote@)),
        CopyPlan::Invalid => None,
    }
}

/// Decides what copying from `src` to `dst` does.
pub fn plan_copy(src: &str, dst: &str) -> (r: CopyPlan)
    ensures
        copy_plan_view(r) == copy_plan_of(src@, dst@),
{
    if is_remote_path(src) {
        match split_once(src, ':') {
            Some((b, p)) => CopyPlan::Download { box_part: b, remote: p },
            None => CopyPlan::Invalid,
        }
    } else if is_remote_path(dst) {
        match split_once(dst, ':') {
            Some((b, p)) => CopyPlan::Upload { box_part: b, remote: p },
            None => CopyPlan::Invalid,
        }
    } else {
        CopyPlan::Invalid
    }
}

/// A command timeout in seconds as milliseconds.
pub fn timeout_ms_of(timeout: Option<i64>) -> (r: Option<i64>)
    requires
        timeout matches Some(t) ==> i64::MIN <= t * 1000 <= i64::MAX,
    ensures
        r == match timeout {
            Some(t) => Some((t * 1000) as i64),
            None => None::<i64>,
        },
{
    match timeout {
        Some(t) => Some(t * 1000),
        None => None,
    }
}

/// The error report for a refused request, if the status refuses it: the
/// code and message of a JSON body, defaulting to `UNKNOWN` and the body
/// itself, or else the status and the body.
pub open spec fn error_report_of(status: u16, body: Seq<char>) -> Option<Seq<char>> {
    if status < 400 {
        None
    } else {
        match error_members(body) {
            Some((_, code, message)) => Some("Error: ["@ + (match code { Some(c) => c, None => "UNKNOWN"@ })
                + "] "@ + (match message { Some(m) => m, None => body })),
            None => Some("Error: "@ + nat_text(status as nat) + " "@ + body),
        }
    }
}

/// Reports a refused request: `None` when the status is below 400.
pub fn error_report(status: u16, body: &str) -> (r: Option<String>)
    ensures
        opt_view(r) == error_report_of(status, body@),
{
    if status < 400 {
        return None;
    }
    match read_error_members(body) {
        Some((_, code, message)) => {
            let c = match code {
                Some(c) => c,
                None => "UNKNOWN".to_owned(),
            };
            let m = match message {
                Some(m) => m,
                None => body.to_owned(),
            };
            let mut s = join3("Error: [", c.as_str(), "] ");
            s.append(m.as_str());
            Some(s)
        },
        None => {
            let mut s = join3("Error: ", u64_to_text(status as u64).as_str(), " ");
            s.append(body);
            Some(s)
        },
    }
}

/// How many bytes a character takes in UTF-8.
pub open spec fn char_bytes(c: char) -> int {
    let v = c as int;
    if v < 0x80 { 1 } else if v < 0x800 { 2 } else if v < 0x10000 { 3 } else { 4 }
}

/// How many bytes a text takes in UTF-8.
pub open spec fn text_bytes(s: Seq<char>) -> int
    decreases s.len(),
{
    if s.len() == 0 { 0 } else { char_bytes(s[0]) + text_bytes(s.drop_first()) }
}

/// The longest beginning of a text that takes at most `n` bytes.
pub open spec fn take_bytes(s: Seq<char>, n: int) -> Seq<char>
    decreases s.len(),
{
    if s.len() == 0 || char_bytes(s[0]) > n {
        Seq::empty()
    } else {
        seq![s[0]] + take_bytes(s.drop_first(), n - char_bytes(s[0]))
    }
}

/// Whether a text can be cut after its first 19 bytes: it is shorter, or
/// a character ends at byte 19.
pub open spec fn cuttable_at_19(s: Seq<char>) -> bool {
    text_bytes(s) < 19 || text_bytes(take_bytes(s, 19)) == 19
}

/// The creation time as the listing shows it: its first 19 bytes, or all
/// of it when it is shorter.
pub open spec fn created_short_of(created: Seq<char>) -> Seq<char> {
    if text_bytes(created) >= 19 { take_bytes(created, 19) } else { created }
}

pub proof fn lemma_text_bytes_nonneg(s: Seq<char>)
    ensures
        text_bytes(s) >= 0,
    decreases s.len(),
{
    if s.len() > 0 {
        lemma_text_bytes_nonneg(s.drop_first());
    }
}

pub(crate) fn utf8_len(c: char) -> (n: u64)
    ensures
        n == char_bytes(c),
{
    let v = c as u32;
    if v < 0x80 { 1 } else if v < 0x800 { 2 } else if v < 0x10000 { 3 } else { 4 }
}

/// The creation time cut to the date and time of day: its first 19
/// bytes. A cut inside a character is left out by `requires`.
pub fn created_short(created: &str) -> (r: String)
    requires
        cuttable_at_19(created@),
    ensures
        r@ == created_short_of(created@),
{
    let ghost s = created@;
    let n = created.unicode_len();
    let mut i: usize = 0;
    let mut used: u64 = 0;
    proof {
        assert(s.skip(0) =~= s);
        assert(s.take(0) =~= Seq::<char>::empty());
    }
    loop
        invariant
            s == created@,
            n == s.len(),
            i <= n,
            used <= 19,
            used + text_bytes(s.skip(i as int)) == text_bytes(s),
            take_bytes(s, 19) == s.take(i as int) + take_bytes(s.skip(i as int), 19 - used),
        decreases n - i,
    {
        if i == n {
            proof {
                assert(s.skip(i as int) =~= Seq::<char>::empty());
                assert(s.take(i as int) =~= s);
            }
            return created.to_owned();
        }
        let c = created.get_char(i);
        let b = utf8_len(c);
        let ghost t = s.skip(i as int);
        proof {
            assert(t[0] == c);
            assert(t.drop_first() =~= s.skip(i + 1));
        }
        if used + b > 19 {
            proof {
                lemma_text_bytes_nonneg(s.skip(i + 1));
                assert(take_bytes(t, 19 - used) =~= Seq::<char>::empty());
                assert(s.take(i as int) + Seq::<char>::empty() =~= s.take(i as int));
            }
            return substring(created, 0, i);
        }
        proof {
            assert(s.take(i as int) + (seq![c] + take_bytes(s.skip(i + 1), 19 - used - b))
                =~= s.take(i + 1) + take_bytes(s.skip(i + 1), 19 - (used + b)));
        }
        used = used + b;
        i = i + 1;
    }
}

/// The header of the box listing.
pub open spec fn box_table_header_of() -> Seq<char> {
    padded_right("ID"@, 20) + " "@ + padded_right("NAME"@, 15) + " "@ + padded_right("STATUS"@, 12) + " "@
        + padded_right("IMAGE"@, 25) + " "@ + padded_left("CPU"@, 4) + " "@ + padded_left("MEM"@, 8) + " "@
        + padded_left("DISK"@, 6) + " "@ + padded_right("CREATED"@, 20)
}

/// The header of the box listing.
pub fn box_table_header() -> (r: String)
    ensures
        r@ == box_table_header_of(),
{
    let mut s = pad_right("ID", 20);
    s.append(" ");
    s.append(pad_right("NAME", 15).as_str());
    s.append(" ");
    s.append(pad_right("STATUS", 12).as_str());
    s.append(" ");
    s.append(pad_right("IMAGE", 25).as_str());
    s.append(" ");
    s.append(pad_left("CPU", 4).as_str());
    s.append(" ");
    s.append(pad_left("MEM", 8).as_str());
    s.append(" ");
    s.append(pad_left("DISK", 6).as_str());
    s.append(" ");
    s.append(pad_right("CREATED", 20).as_str());
    s
}

/// A line of the box listing.
pub open spec fn box_table_row_of(
    id: Seq<char>,
    name: Seq<char>,
    status: Seq<char>,
    image: Seq<char>,
    cpu: i64,
    memory_mb: i64,
    disk_size_gb: i64,
    created: Seq<char>,
) -> Seq<char> {
    padded_right(id, 20) + " "@ + padded_right(name, 15) + " "@ + padded_right(status, 12) + " "@
        + padded_right(image, 25) + " "@ + padded_left(int_text(cpu as int), 4) + " "@
        + padded_left(int_text(memory_mb as int), 7) + "MB "@ + padded_left(int_text(disk_size_gb as int), 5) + "G "@
        + padded_right(created_short_of(created), 20)
}

/// A line of the box listing.
pub fn box_table_row(
    id: &str,
    name: &str,
    status: &str,
    image: &str,
    cpu: i64,
    memory_mb: i64,
    disk_size_gb: i64,
    created: &str,
) -> (r: String)
    requires
        cuttable_at_19(created@),
    ensures
        r@ == box_table_row_of(id@, name@, status@, image@, cpu, memory_mb, disk_size_gb, created@),
{
    let mut s = pad_right(id, 20);
    s.append(" ");
    s.append(pad_right(name, 15).as_str());
    s.append(" ");
    s.append(pad_right(status, 12).as_str());
    s.append(" ");
    s.append(pad_right(image, 25).as_str());
    s.append(" ");
    s.append(pad_left(i64_to_text(cpu).as_str(), 4).as_str());
    s.append(" ");
    s.append(pad_left(i64_to_text(memory_mb).as_str(), 7).as_str());
    s.append("MB ");
    s.append(pad_left(i64_to_text(disk_size_gb).as_str(), 5).as_str());
    s.append("G ");
    s.append(pad_right(created_short(created).as_str(), 20).as_str());
    s
}

/// A line of the image table.
pub open spec fn image_line_of(alias: Seq<char>, image: Seq<char>, description: Seq<char>) -> Seq<char> {
    padded_right(alias, 12) + " "@ + padded_right(image, 25) + " "@ + description
}

/// The image table: its header, a rule as long as the header, and a line
/// for each image of the catalog.
pub fn image_table() -> (r: Vec<String>)
    ensures
        r@.len() == catalog_aliases().len() + 2,
        r@[0]@ == image_line_of("ALIAS"@, "IMAGE"@, "DESCRIPTION"@),
        r@[1]@ == repeated('-', r@[0]@.len()),
        forall|i: int| 0 <= i < catalog_aliases().len() ==> {
            let a = catalog_aliases()[i];
            (#[trigger] r@[i + 2])@ == image_line_of(a, catalog_image(a)->0, catalog_description(a)->0)
        },
{
    let header = image_line("ALIAS", "IMAGE", "DESCRIPTION");
    let rule = repeat_char('-', header.unicode_len());
    let mut out: Vec<String> = Vec::new();
    out.push(header);
    out.push(rule);
    let entries = image_catalog();
    let mut i: usize = 0;
    while i < entries.len()
        invariant
            i <= entries@.len(),
            entries@.len() == catalog_aliases().len(),
            forall|k: int| 0 <= k < entries@.len() ==> {
                &&& (#[trigger] entries@[k]).alias@ == catalog_aliases()[k]
                &&& catalog_image(entries@[k].alias@) == Some(entries@[k].image@)
                &&& catalog_description(entries@[k].alias@) == Some(entries@[k].description@)
            },
            out@.len() == i + 2,
            out@[0]@ == image_line_of("ALIAS"@, "IMAGE"@, "DESCRIPTION"@),
            out@[1]@ == repeated('-', out@[0]@.len()),
            forall|k: int| 0 <= k < i ==> {
                let a = catalog_aliases()[k];
                (#[trigger] out@[k + 2])@ == image_line_of(a, catalog_image(a)->0, catalog_description(a)->0)
            },
        decreases entries@.len() - i,
    {
        let e = &entries[i];
        out.push(image_line(e.alias, e.image, e.description));
        i = i + 1;
    }
    out
}

fn image_line(alias: &str, image: &str, description: &str) -> (r: String)
    ensures
        r@ == image_line_of(alias@, image@, description@),
{
    let mut s = pad_right(alias, 12);
    s.append(" ");
    s.append(pad_right(image, 25).as_str());
    s.append(" ");
    s.append(description);
    s
}

/// The text with each CR LF pair made a single LF, as `replace` does.
pub open spec fn crlf_to_lf(s: Seq<char>) -> Seq<char>
    decreases s.len(),
{
    if s.len() == 0 {
        s
    } else if s.len() >= 2 && s[0] == '\r' && s[1] == '\n' {
        seq!['\n'] + crlf_to_lf(s.subrange(2, s.len() as int))
    } else {
        seq![s[0]] + crlf_to_lf(s.drop_first())
    }
}

proof fn lemma_crlf_chunk(s: Seq<char>, start: int, i: int)
    requires
        0 <= start <= i <= s.len(),
        forall|k: int| start <= k < i ==> !(k + 1 < s.len() && #[trigger] s[k] == '\r' && s[k + 1] == '\n'),
    ensures
        crlf_to_lf(s.subrange(start, s.len() as int)) == s.subrange(start, i) + crlf_to_lf(s.subrange(i, s.len() as int)),
    decreases i - start,
{
    if start < i {
        let t = s.subrange(start, s.len() as int);
        assert(!(start + 1 < s.len() && s[start] == '\r' && s[start + 1] == '\n'));
        assert(t.drop_first() =~= s.subrange(start + 1, s.len() as int));
        lemma_crlf_chunk(s, start + 1, i);
        assert(s.subrange(start, i) =~= seq![s[start]] + s.subrange(start + 1, i));
    } else {
        assert(s.subrange(start, i) =~= Seq::<char>::empty());
    }
}

/// Makes each CR LF pair a single LF.
pub fn normalize_newlines(s: &str) -> (r: String)
    ensures
        r@ == crlf_to_lf(s@),
{
    let n = s.unicode_len();
    let mut out = String::new();
    let mut start: usize = 0;
    let mut i: usize = 0;
    proof {
        reveal_strlit("\n");
        assert(s@.subrange(0, n as int) =~= s@);
    }
    while i < n
        invariant
            n == s@.len(),
            start <= i <= n,
            "\n"@ == seq!['\n'],
            forall|k: int| start <= k < i ==> !(k + 1 < s@.len() && #[trigger] s@[k] == '\r' && s@[k + 1] == '\n'),
            crlf_to_lf(s@) == out@ + crlf_to_lf(s@.subrange(start as int, n as int)),
        decreases n - i,
    {
        if i + 1 < n && s.get_char(i) == '\r' && s.get_char(i + 1) == '\n' {
            proof {
                lemma_crlf_chunk(s@, start as int, i as int);
                let t = s@.subrange(i as int, n as int);
                assert(t.subrange(2, t.len() as int) =~= s@.subrange(i + 2, n as int));
            }
            let ghost before = out@;
            out.append(substring(s, start, i).as_str());
            out.append("\n");
            proof {
                assert(out@ =~= before + s@.subrange(start as int, i as int) + seq!['\n']);
            }
            start = i + 2;
            i = i + 2;
        } else {
            i = i + 1;
        }
    }
    proof {
        lemma_crlf_chunk(s@, start as int, n as int);
        assert(s@.subrange(n as int, n as int) =~= Seq::<char>::empty());
    }
    out.append(substring(s, start, n).as_str());
    out
}

/// The position of the first blank line, two LFs in a row.
pub open spec fn first_blank(s: Seq<char>) -> Option<int>
    decreases s.len(),
{
    if s.len() < 2 {
        None
    } else if s[0] == '\n' && s[1] == '\n' {
        Some(0)
    } else {
        match first_blank(s.drop_first()) {
            Some(i) => Some(i + 1),
            None => None,
        }
    }
}

pub proof fn lemma_first_blank(s: Seq<char>)
    ensures
        match first_blank(s) {
            Some(i) => 0 <= i && i + 1 < s.len() && s[i] == '\n' && s[i + 1] == '\n'
                && forall|k: int| 0 <= k < i ==> !(#[trigger] s[k] == '\n' && s[k + 1] == '\n'),
            None => forall|k: int| 0 <= k && k + 1 < s.len() ==> !(#[trigger] s[k] == '\n' && s[k + 1] == '\n'),
        },
    decreases s.len(),
{
    if s.len() >= 2 && !(s[0] == '\n' && s[1] == '\n') {
        let t = s.drop_first();
        lemma_first_blank(t);
        match first_blank(t) {
            Some(i) => {
                assert forall|k: int| 0 <= k < i + 1 implies !(#[trigger] s[k] == '\n' && s[k + 1] == '\n') by {
                    if k > 0 {
                        assert(s[k] == t[k - 1] && s[k + 1] == t[k]);
                    }
                }
            },
            None => {
                assert forall|k: int| 0 <= k && k + 1 < s.len() implies !(#[trigger] s[k] == '\n' && s[k + 1] == '\n') by {
                    if k > 0 {
                        assert(s[k] == t[k - 1] && s[k + 1] == t[k]);
                    }
                }
            },
        }
    }
}

/// The frames of a stream buffer, each ended by a blank line, and what
/// is left after the last of them.
pub open spec fn frames_of(s: Seq<char>) -> (Seq<Seq<char>>, Seq<char>)
    decreases s.len(),
{
    match first_blank(s) {
        Some(i) => {
            proof {
                lemma_first_blank(s);
            }
            let r = frames_of(s.subrange(i + 2, s.len() as int));
            (seq![s.subrange(0, i)] + r.0, r.1)
        },
        None => (Seq::empty(), s),
    }
}

/// Takes the complete frames off a stream buffer whose line ends are
/// normalized; returns them and the rest of the buffer.
pub fn take_frames(buffer: &str) -> (r: (Vec<String>, String))
    ensures
        r.0@.map_values(|f: String| f@) == frames_of(buffer@).0,
        r.1@ == frames_of(buffer@).1,
{
    let n = buffer.unicode_len();
    let mut frames: Vec<String> = Vec::new();
    let mut start: usize = 0;
    let mut i: usize = 0;
    proof {
        assert(buffer@.subrange(0, n as int) =~= buffer@);
        assert(frames@.map_values(|f: String| f@) =~= Seq::<Seq<char>>::empty());
    }
    while i < n && i + 1 < n
        invariant
            n == buffer@.len(),
            start <= i <= n,
            forall|k: int| start <= k < i ==> !(#[trigger] buffer@[k] == '\n' && k + 1 < n && buffer@[k + 1] == '\n'),
            ({
                let r = frames_of(buffer@.subrange(start as int, n as int));
                &&& frames_of(buffer@).0 == frames@.map_values(|f: String| f@) + r.0
                &&& frames_of(buffer@).1 == r.1
            }),
        decreases n - i,
    {
        if buffer.get_char(i) == '\n' && buffer.get_char(i + 1) == '\n' {
            let ghost t = buffer@.subrange(start as int, n as int);
            proof {
                let j = i - start;
                assert forall|k: int| 0 <= k < j implies !(#[trigger] t[k] == '\n' && t[k + 1] == '\n') by {
                    assert(t[k] == buffer@[start + k]);
                    assert(t[k + 1] == buffer@[start + k + 1]);
                }
                lemma_first_blank(t);
                match first_blank(t) {
                    Some(b) => {
                        if b < j {
                            assert(t[b] == buffer@[start + b]);
                        } else if b > j {
                            assert(t[j] == buffer@[i as int]);
                            assert(t[j + 1] == buffer@[i + 1]);
                        }
                    },
                    None => {
                        assert(t[j] == buffer@[i as int]);
                        assert(t[j + 1] == buffer@[i + 1]);
                    },
                }
                assert(t.subrange(0, j) =~= buffer@.subrange(start as int, i as int));
                assert(t.subrange(j + 2, t.len() as int) =~= buffer@.subrange(i + 2, n as int));
            }
            let ghost before = frames@;
            frames.push(substring(buffer, start, i));
            proof {
                assert(frames@.map_values(|f: String| f@) =~= before.map_values(|f: String| f@).push(buffer@.subrange(start as int, i as int)));
                let r2 = frames_of(buffer@.subrange(i + 2, n as int));
                assert(before.map_values(|f: String| f@) + (seq![buffer@.subrange(start as int, i as int)] + r2.0)
                    =~= frames@.map_values(|f: String| f@) + r2.0);
            }
            start = i + 2;
            i = i + 2;
        } else {
            i = i + 1;
        }
    }
    let ghost t = buffer@.subrange(start as int, n as int);
    proof {
        assert forall|k: int| 0 <= k && k + 1 < t.len() implies !(#[trigger] t[k] == '\n' && t[k + 1] == '\n') by {
            assert(t[k] == buffer@[start + k]);
            assert(t[k + 1] == buffer@[start + k + 1]);
        }
        lemma_first_blank(t);
        assert(frames@.map_values(|f: String| f@) + Seq::<Seq<char>>::empty() =~= frames@.map_values(|f: String| f@));
    }
    (frames, substring(buffer, start, n))
}

/// The event type and the data pieces that the lines of a frame give: the
/// last `event:` line names the type; each `data:` line gives a piece;
/// both are trimmed.
pub open spec fn line_fields(lines: Seq<Seq<char>>) -> (Option<Seq<char>>, Seq<Seq<char>>)
    decreases lines.len(),
{
    if lines.len() == 0 {
        (None, Seq::empty())
    } else {
        let prev = line_fields(lines.drop_last());
        let l = lines.last();
        if has_prefix(l, "event:"@) {
            (Some(trimmed(l.subrange(6, l.len() as int))), prev.1)
        } else if has_prefix(l, "data:"@) {
            (prev.0, prev.1.push(trimmed(l.subrange(5, l.len() as int))))
        } else {
            prev
        }
    }
}

/// Pieces joined by LFs.
pub open spec fn joined_lines(parts: Seq<Seq<char>>) -> Seq<char>
    decreases parts.len(),
{
    if parts.len() == 0 {
        Seq::empty()
    } else if parts.len() == 1 {
        parts[0]
    } else {
        joined_lines(parts.drop_last()) + "\n"@ + parts.last()
    }
}

/// The event type and the data of a frame; none when it has no data.
pub open spec fn frame_fields_of(frame: Seq<char>) -> Option<(Option<Seq<char>>, Seq<char>)> {
    let f = line_fields(lines_of(trimmed(frame)));
    if f.1.len() == 0 { None } else { Some((f.0, joined_lines(f.1))) }
}

/// Reads the event type and the data of a frame.
pub fn frame_fields(frame: &str) -> (r: Option<(Option<String>, String)>)
    ensures
        match r {
            Some((t, d)) => frame_fields_of(frame@) == Some((opt_view(t), d@)),
            None => frame_fields_of(frame@) is None,
        },
{
    proof {
        reveal_strlit("event:");
        reveal_strlit("data:");
        reveal_strlit("\n");
        assert("event:"@.len() == 6 && "data:"@.len() == 5);
    }
    let t = trim_text(frame);
    let lines = text_lines(t.as_str());
    let ghost ls = lines@.map_values(|x: String| x@);
    let mut event_type: Option<String> = None;
    let mut data = String::new();
    let mut count: usize = 0;
    let ghost mut parts: Seq<Seq<char>> = Seq::empty();
    let mut i: usize = 0;
    proof {
        assert(ls.take(0) =~= Seq::<Seq<char>>::empty());
    }
    while i < lines.len()
        invariant
            i <= lines@.len(),
            ls == lines@.map_values(|x: String| x@),
            ls == lines_of(trimmed(frame@)),
            line_fields(ls.take(i as int)) == (opt_view(event_type), parts),
            data@ == joined_lines(parts),
            count == parts.len(),
            count <= i,
            "event:"@.len() == 6,
            "data:"@.len() == 5,
        decreases lines@.len() - i,
    {
        let l = lines[i].as_str();
        proof {
            assert(ls.take(i + 1).drop_last() =~= ls.take(i as int));
            assert(ls.take(i + 1).last() == l@);
        }
        if starts_with_text(l, "event:") {
            let n = l.unicode_len();
            event_type = Some(trim_text(l.substring_char(6, n)));
        } else if starts_with_text(l, "data:") {
            let n = l.unicode_len();
            let piece = trim_text(l.substring_char(5, n));
            proof {
                if parts.len() > 0 {
                    assert(parts.push(piece@).drop_last() =~= parts);
                }
            }
            if count == 0 {
                data = piece;
            } else {
                data.append("\n");
                data.append(piece.as_str());
            }
            proof {
                parts = parts.push(piece@);
            }
            count = count + 1;
        }
        i = i + 1;
    }
    proof {
        assert(ls.take(lines@.len() as int) =~= ls);
    }
    if count == 0 {
        None
    } else {
        Some((event_type, data))
    }
}

/// What the command line shows for an event of the stream.
pub enum StreamOutput {
    /// Nothing: the data is not JSON, or the event is of another type.
    Skip,
    /// Text logged to standard output.
    Stdout(String),
    /// Text logged to standard error.
    Stderr(String),
    /// The command exited with this code; the stream is over.
    Exit(i64),
}

/// What the command line shows for an event, as content.
pub enum StreamOutputView {
    Skip,
    Stdout(Seq<char>),
    Stderr(Seq<char>),
    Exit(i64),
}

pub open spec fn stream_output_view(o: StreamOutput) -> StreamOutputView {
    match o {
        StreamOutput::Skip => StreamOutputView::Skip,
        StreamOutput::Stdout(t) => StreamOutputView::Stdout(t@),
        StreamOutput::Stderr(t) => StreamOutputView::Stderr(t@),
        StreamOutput::Exit(c) => StreamOutputView::Exit(c),
    }
}

/// What the command line shows for an event: a log event's text on the
/// stream it names (standard output unless it names standard error), or
/// the exit code that an exit event carries (0 unless it gives one).
pub open spec fn stream_output_of(event_type: Option<Seq<char>>, data: Seq<char>) -> StreamOutputView {
    match event_members(data) {
        Err(_) => StreamOutputView::Skip,
        Ok((d, st, _)) => if event_type == Some("log"@) {
            let stream = match st { Some(x) => x, None => "stdout"@ };
            let text = match d { Some(x) => x, None => Seq::empty() };
            if stream == "stderr"@ { StreamOutputView::Stderr(text) } else { StreamOutputView::Stdout(text) }
        } else if event_type == Some("exit"@) {
            let inner = match d { Some(x) => x, None => "{}"@ };
            StreamOutputView::Exit(match exit_code_member(inner) { Some(Some(c)) => c, _ => 0 })
        } else {
            StreamOutputView::Skip
        },
    }
}

/// Decides what the command line shows for an event of the stream.
pub fn stream_output(event_type: Option<&str>, data: &str) -> (r: StreamOutput)
    ensures
        stream_output_view(r) == stream_output_of(crate::store::opt_str_view(event_type), data@),
{
    match read_event_members(data) {
        Err(_) => StreamOutput::Skip,
        Ok((d, st, _)) => {
            let is_log = match event_type { Some(t) => str_eq(t, "log"), None => false };
            let is_exit = match event_type { Some(t) => str_eq(t, "exit"), None => false };
            if is_log {
                let to_stderr = match &st { Some(x) => str_eq(x.as_str(), "stderr"), None => false };
                proof {
                    reveal_strlit("stdout");
                    reveal_strlit("stderr");
                    assert("stdout"@ != "stderr"@) by {
                        assert("stdout"@[3] != "stderr"@[3]);
                    }
                }
                let text = match d { Some(x) => x, None => String::new() };
                if to_stderr { StreamOutput::Stderr(text) } else { StreamOutput::Stdout(text) }
            } else if is_exit {
                let inner = match d { Some(x) => x, None => "{}".to_owned() };
                let code = match read_exit_code(inner.as_str()) {
                    Some(Some(c)) => c,
                    _ => 0,
                };
                StreamOutput::Exit(code)
            } else {
                StreamOutput::Skip
            }
        },
    }
}

} // verus!
