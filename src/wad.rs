//! Archive ("WAD") header checks, chunk-table listing, and the planning of
//! extracted file names.
use vstd::prelude::*;
use crate::catalog::{is_digits_exec, resolved, trim_exec, trimmed, Hashtable, IndexBatch};
use crate::error::Error;
use crate::text::{
    after_last, after_last_exec, all_digits, append_chars, chars_of, decimal, decimal_exec, hex16,
    hex16_exec, lemma_after_last, parse_unsigned, parse_unsigned_exec, replace_char,
    replace_char_exec, run_before, slice_chars, string_of, string_views,
};

verus! {

/// The text of a two-byte magic as a list: `[82, 87]`.
pub open spec fn magic_text(a: u8, b: u8) -> Seq<char> {
    seq!['['] + decimal(a as nat) + ", "@ + decimal(b as nat) + seq![']']
}

/// Reads the `(major, minor)` version from the first bytes of an archive at `path`.
/// The bytes must start with `RW`; fewer than four bytes is a read failure.
pub fn read_wad_version(header: &[u8], path: &str) -> (r: Result<(u8, u8), Error>)
    ensures
        header@.len() >= 4 && header@[0] == 0x52 && header@[1] == 0x57 ==> r == Ok::<
            (u8, u8),
            Error,
        >((header@[2], header@[3])),
        header@.len() >= 2 && !(header@[0] == 0x52 && header@[1] == 0x57) ==> (r matches Err(
            Error::Wad { message, path: Some(p) },
        ) && message@ == "Invalid WAD magic bytes: expected 'RW', got '"@ + magic_text(
            header@[0],
            header@[1],
        ) + "'"@ && p@ == path@),
        header@.len() < 2 || (header@.len() < 4 && header@[0] == 0x52 && header@[1] == 0x57) ==> (
        r matches Err(Error::Io { path: Some(p), .. }) && p@ == path@),
{
    if header.len() < 2 {
        return Err(Error::io_with_path("failed to fill whole buffer", path));
    }
    if !(header[0] == 0x52 && header[1] == 0x57) {
        let mut m = chars_of("Invalid WAD magic bytes: expected 'RW', got '");
        m.push('[');
        append_chars(&mut m, &decimal_exec(header[0] as u64));
        append_chars(&mut m, &chars_of(", "));
        append_chars(&mut m, &decimal_exec(header[1] as u64));
        m.push(']');
        append_chars(&mut m, &chars_of("'"));
        assert(m@ =~= "Invalid WAD magic bytes: expected 'RW', got '"@ + magic_text(
            header@[0],
            header@[1],
        ) + "'"@);
        return Err(Error::Wad { message: string_of(&m), path: Some(string_of(&chars_of(path))) });
    }
    if header.len() < 4 {
        return Err(Error::io_with_path("failed to fill whole buffer", path));
    }
    Ok((header[2], header[3]))
}

/// Number of leading `/` characters.
pub open spec fn lead_slashes(s: Seq<char>) -> nat
    decreases s.len(),
{
    if s.len() == 0 || s[0] != '/' {
        0
    } else {
        1 + lead_slashes(s.skip(1))
    }
}

/// A resolved archive path made relative: backslashes become slashes and leading
/// slashes go.
pub open spec fn normalize_rel(v: Seq<char>) -> Seq<char> {
    let q = replace_char(v, '\\', '/');
    q.skip(lead_slashes(q) as int)
}

/// A `..` segment starts at `i`.
pub open spec fn dotdot_at(p: Seq<char>, i: int) -> bool {
    0 <= i && i + 2 <= p.len() && p[i] == '.' && p[i + 1] == '.' && (i == 0 || p[i - 1] == '/')
        && (i + 2 == p.len() || p[i + 2] == '/')
}

/// The path stays under the directory it is joined to: it is not absolute and has
/// no `..` segment.
pub open spec fn stays_inside(p: Seq<char>) -> bool {
    !(p.len() > 0 && p[0] == '/') && !(exists|i: int| dotdot_at(p, i))
}

/// A safe relative path: it stays inside, and its first segment is no drive
/// prefix (holds no `:`).
pub open spec fn is_safe_rel(p: Seq<char>) -> bool {
    stays_inside(p) && !(exists|i: int| 0 <= i < run_before(p, '/') && p[i] == ':')
}

fn normalize_rel_chars(v: &[char]) -> (r: Vec<char>)
    ensures
        r@ == normalize_rel(v@),
{
    let q = replace_char_exec(v, '\\', '/');
    let mut i: usize = 0;
    assert(q@.skip(0) =~= q@);
    while i < q.len() && q[i] == '/'
        invariant
            i <= q@.len(),
            lead_slashes(q@) == i + lead_slashes(q@.skip(i as int)),
        decreases q@.len() - i,
    {
        assert(q@.skip(i as int).skip(1) =~= q@.skip(i + 1));
        i = i + 1;
    }
    slice_chars(&q, i, q.len())
}

/// The relative form of a resolved archive path.
pub fn normalize_rel_path(v: &str) -> (r: String)
    ensures
        r@ == normalize_rel(v@),
{
    string_of(&normalize_rel_chars(&chars_of(v)))
}

fn is_safe_rel_chars(p: &[char]) -> (r: bool)
    ensures
        r == is_safe_rel(p@),
{
    if p.len() > 0 && p[0] == '/' {
        return false;
    }
    let mut i: usize = 0;
    while i < p.len()
        invariant
            i <= p@.len(),
            forall|j: int| 0 <= j < i ==> !dotdot_at(p@, j),
        decreases p@.len() - i,
    {
        if p[i] == '.' && i + 1 < p.len() && p[i + 1] == '.' && (i == 0 || p[i - 1] == '/') && (i
            + 2 == p.len() || p[i + 2] == '/') {
            assert(dotdot_at(p@, i as int));
            return false;
        }
        i = i + 1;
    }
    assert(!(exists|i: int| dotdot_at(p@, i)));
    let n = crate::text::find_char(p, '/');
    let mut k: usize = 0;
    while k < n
        invariant
            n == run_before(p@, '/'),
            n <= p@.len(),
            k <= n,
            forall|j: int| 0 <= j < k ==> p@[j] != ':',
        decreases n - k,
    {
        if p[k] == ':' {
            return false;
        }
        k = k + 1;
    }
    true
}

/// Whether a relative path may be used under an output directory.
pub fn is_safe_relative_path(path: &str) -> (r: bool)
    ensures
        r == is_safe_rel(path@),
{
    is_safe_rel_chars(&chars_of(path))
}

/// `.<ext>` where the path holds a `.`, the text after its last `.` being the
/// extension; empty otherwise.
pub open spec fn ext_suffix(rel: Seq<char>) -> Seq<char> {
    if after_last(rel, '.') > 0 {
        seq!['.'] + rel.skip(after_last(rel, '.') as int)
    } else {
        Seq::empty()
    }
}

/// The fallback file name of an entry: its hash in hex, then its extension.
pub open spec fn hashed_name(h: u64, rel: Seq<char>) -> Seq<char> {
    hex16(h) + ext_suffix(rel)
}

/// How many bytes the UTF-8 encoding of `c` takes.
pub open spec fn utf8_width(c: char) -> nat {
    if (c as u32) < 0x80 {
        1
    } else if (c as u32) < 0x800 {
        2
    } else if (c as u32) < 0x10000 {
        3
    } else {
        4
    }
}

/// How many bytes the UTF-8 encoding of `s` takes.
pub open spec fn utf8_len(s: Seq<char>) -> nat
    decreases s.len(),
{
    if s.len() == 0 {
        0
    } else {
        utf8_len(s.drop_last()) + utf8_width(s.last())
    }
}

/// The last `/`-separated segment: the name of the file a path ends in.
pub open spec fn name_of(rel: Seq<char>) -> Seq<char> {
    rel.skip(after_last(rel, '/') as int)
}

/// Whether an entry must be written under its fallback name: its own name is
/// over 255 bytes, or a directory already stands where it would go.
pub open spec fn needs_hashed(rel: Seq<char>, collides_with_dir: bool) -> bool {
    utf8_len(name_of(rel)) > 255 || collides_with_dir
}

fn utf8_len_exceeds(s: &[char], limit: u64) -> (r: bool)
    requires
        limit <= 0x1_0000,
    ensures
        r == (utf8_len(s@) > limit),
{
    let mut total: u64 = 0;
    let mut i: usize = 0;
    while i < s.len()
        invariant
            i <= s@.len(),
            total == utf8_len(s@.subrange(0, i as int)),
            total <= limit,
            limit <= 0x1_0000,
        decreases s@.len() - i,
    {
        let c = s[i] as u32;
        let w: u64 = if c < 0x80 {
            1
        } else if c < 0x800 {
            2
        } else if c < 0x10000 {
            3
        } else {
            4
        };
        assert(s@.subrange(0, i + 1).drop_last() =~= s@.subrange(0, i as int));
        if total + w > limit {
            proof {
                lemma_utf8_len_grows(s@, i + 1);
            }
            return true;
        }
        total = total + w;
        i = i + 1;
    }
    assert(s@.subrange(0, s@.len() as int) =~= s@);
    false
}

proof fn lemma_utf8_len_grows(s: Seq<char>, i: int)
    requires
        0 <= i <= s.len(),
    ensures
        utf8_len(s) >= utf8_len(s.subrange(0, i)),
    decreases s.len(),
{
    if i < s.len() {
        assert(s.drop_last().subrange(0, i) =~= s.subrange(0, i));
        lemma_utf8_len_grows(s.drop_last(), i);
    } else {
        assert(s.subrange(0, i) =~= s);
    }
}

/// An archive entry that is to be written: where, and, for an entry written under
/// its fallback name, the resolved path it stands for.
pub struct PlannedFile {
    pub path_hash: u64,
    pub rel_path: String,
    pub original: Option<String>,
}

/// Decides where an archive entry goes under the output directory. `None` where the
/// resolved path is unsafe; the fallback name where [`needs_hashed`] says so.
/// `collides_with_dir` tells whether a directory stands at the normalized path.
pub fn plan_chunk(path_hash: u64, resolved: &str, collides_with_dir: bool) -> (r: Option<
    PlannedFile,
>)
    ensures
        !is_safe_rel(normalize_rel(resolved@)) ==> r is None,
        is_safe_rel(normalize_rel(resolved@)) && !needs_hashed(
            normalize_rel(resolved@),
            collides_with_dir,
        ) ==> (r matches Some(f) && f.path_hash == path_hash && f.rel_path@ == normalize_rel(
            resolved@,
        ) && f.original is None),
        is_safe_rel(normalize_rel(resolved@)) && needs_hashed(
            normalize_rel(resolved@),
            collides_with_dir,
        ) ==> (r matches Some(f) && f.path_hash == path_hash && f.rel_path@ == hashed_name(
            path_hash,
            normalize_rel(resolved@),
        ) && (f.original matches Some(o) && o@ == resolved@)),
{
    let rel = normalize_rel_chars(&chars_of(resolved));
    if !is_safe_rel_chars(&rel) {
        return None;
    }
    let slash = after_last_exec(&rel, '/');
    proof {
        lemma_after_last(rel@, '/');
    }
    let name = slice_chars(&rel, slash, rel.len());
    if utf8_len_exceeds(&name, 255) || collides_with_dir {
        let mut n = hex16_exec(path_hash);
        let dot = after_last_exec(&rel, '.');
        proof {
            lemma_after_last(rel@, '.');
        }
        if dot > 0 {
            n.push('.');
            append_chars(&mut n, &slice_chars(&rel, dot, rel.len()));
        }
        assert(n@ =~= hashed_name(path_hash, rel@));
        Some(PlannedFile {
            path_hash,
            rel_path: string_of(&n),
            original: Some(string_of(&chars_of(resolved))),
        })
    } else {
        Some(PlannedFile { path_hash, rel_path: string_of(&rel), original: None })
    }
}

/// No planned output leaves the output directory: every path that
/// [`plan_chunk`] can give is neither absolute nor holds a `..` segment.
pub proof fn law_planned_paths_stay_inside(h: u64, resolved: Seq<char>, collides_with_dir: bool)
    requires
        is_safe_rel(normalize_rel(resolved)),
    ensures
        stays_inside(normalize_rel(resolved)),
        stays_inside(hashed_name(h, normalize_rel(resolved))),
{
    let rel = normalize_rel(resolved);
    let n = hashed_name(h, rel);
    crate::catalog::law_hex_fallback_shape(h);
    lemma_after_last(rel, '.');
    let a = after_last(rel, '.');
    assert forall|i: int| 0 <= i < n.len() && n[i] == '.' implies i == 16 by {
        if i < 16 {
            assert(n[i] == hex16(h)[i]);
        } else if i > 16 {
            assert(n[i] == rel[a + (i - 17)]);
        }
    }
    assert(n[0] == hex16(h)[0]);
    assert(!(exists|i: int| dotdot_at(n, i)));
}

/// `s` without every leading repetition of the two characters `a`, `b`.
pub open spec fn strip_pairs(s: Seq<char>, a: char, b: char) -> Seq<char>
    decreases s.len(),
{
    if s.len() >= 2 && s[0] == a && s[1] == b {
        strip_pairs(s.skip(2), a, b)
    } else {
        s
    }
}

fn strip_pairs_exec(s: &[char], a: char, b: char) -> (r: Vec<char>)
    ensures
        r@ == strip_pairs(s@, a, b),
{
    let mut i: usize = 0;
    assert(s@.skip(0) =~= s@);
    while s.len() - i >= 2 && s[i] == a && s[i + 1] == b
        invariant
            i <= s@.len(),
            strip_pairs(s@, a, b) == strip_pairs(s@.skip(i as int), a, b),
        decreases s@.len() - i,
    {
        assert(s@.skip(i as int).skip(2) =~= s@.skip(i + 2));
        i = i + 2;
    }
    slice_chars(s, i, s.len())
}

/// A hash given as text: trimmed, leading `0x` and then `0X` runs removed, and
/// then exactly sixteen hex digits.
pub open spec fn hash_hex_value(s: Seq<char>) -> Option<u64> {
    let raw = strip_pairs(strip_pairs(trimmed(s), '0', 'x'), '0', 'X');
    if raw.len() == 16 && all_digits(raw, 16) {
        match parse_unsigned(raw, 16, 0xffff_ffff_ffff_ffff) {
            Some(v) => Some(v as u64),
            None => None,
        }
    } else {
        None
    }
}

/// Reads a path hash written as sixteen hex digits.
pub fn parse_hash_hex(s: &str) -> (r: Option<u64>)
    ensures
        r == hash_hex_value(s@),
{
    let t = trim_exec(&chars_of(s));
    let raw = strip_pairs_exec(&strip_pairs_exec(&t, '0', 'x'), '0', 'X');
    if raw.len() == 16 && is_digits_exec(&raw, 16) {
        parse_unsigned_exec(&raw, 16, 0xffff_ffff_ffff_ffff)
    } else {
        None
    }
}

/// One entry chosen for extraction: the archive, the entry's hash as hex text, and
/// where it goes under the output directory.
pub struct ExtractItem {
    pub wad_path: String,
    pub path_hash: String,
    pub rel_path: String,
}

/// An accepted item: the index of its archive among the groups, its hash, and its
/// safe relative path.
pub struct SelectedEntry {
    pub archive: usize,
    pub path_hash: u64,
    pub rel_path: String,
}

/// Selected items grouped by archive, so each archive is opened once.
pub struct SelectionPlan {
    /// Archive paths, in order of first appearance.
    pub archives: Vec<String>,
    /// Accepted items, in input order.
    pub entries: Vec<SelectedEntry>,
    /// Items refused: an empty archive or path, a bad hash, or an unsafe path.
    pub skipped: usize,
}

/// Whether an item is accepted, and with what hash and path.
pub open spec fn item_target(it: ExtractItem) -> Option<(u64, Seq<char>)> {
    if it.wad_path@.len() == 0 || it.rel_path@.len() == 0 {
        None
    } else {
        match hash_hex_value(it.path_hash@) {
            None => None,
            Some(h) => if is_safe_rel(normalize_rel(it.rel_path@)) {
                Some((h, normalize_rel(it.rel_path@)))
            } else {
                None
            },
        }
    }
}

/// The plan's archives, accepted items (archive path, hash, path) and skip count.
pub open spec fn selection_of(items: Seq<ExtractItem>) -> (Seq<Seq<char>>, Seq<(Seq<char>, u64, Seq<char>)>, nat)
    decreases items.len(),
{
    if items.len() == 0 {
        (Seq::empty(), Seq::empty(), 0)
    } else {
        let (arch, ents, skipped) = selection_of(items.drop_last());
        let it = items.last();
        match item_target(it) {
            None => (arch, ents, skipped + 1),
            Some((h, rel)) => {
                let arch2 = if arch.contains(it.wad_path@) {
                    arch
                } else {
                    arch.push(it.wad_path@)
                };
                (arch2, ents.push((it.wad_path@, h, rel)), skipped)
            },
        }
    }
}

pub open spec fn archives_view(p: SelectionPlan) -> Seq<Seq<char>> {
    string_views(p.archives@)
}

/// Groups selected items by archive, refusing those that cannot be extracted safely.
pub fn plan_selection(items: &Vec<ExtractItem>) -> (r: SelectionPlan)
    ensures
        archives_view(r) == selection_of(items@).0,
        archives_view(r).no_duplicates(),
        r.entries@.len() == selection_of(items@).1.len(),
        forall|i: int|
            0 <= i < r.entries@.len() ==> {
                let e = #[trigger] r.entries@[i];
                let s = selection_of(items@).1[i];
                &&& e.archive < r.archives@.len()
                &&& r.archives@[e.archive as int]@ == s.0
                &&& e.path_hash == s.1
                &&& e.rel_path@ == s.2
            },
        r.skipped == selection_of(items@).2,
{
    let mut archives: Vec<String> = Vec::new();
    let mut entries: Vec<SelectedEntry> = Vec::new();
    let mut skipped: usize = 0;
    let mut i: usize = 0;
    while i < items.len()
        invariant
            i <= items@.len(),
            skipped <= i,
            string_views(archives@) == selection_of(items@.take(i as int)).0,
            string_views(archives@).no_duplicates(),
            entries@.len() == selection_of(items@.take(i as int)).1.len(),
            forall|k: int|
                0 <= k < entries@.len() ==> {
                    let e = #[trigger] entries@[k];
                    let s = selection_of(items@.take(i as int)).1[k];
                    &&& e.archive < archives@.len()
                    &&& archives@[e.archive as int]@ == s.0
                    &&& e.path_hash == s.1
                    &&& e.rel_path@ == s.2
                },
            skipped == selection_of(items@.take(i as int)).2,
        decreases items@.len() - i,
    {
        assert(items@.take(i + 1).drop_last() =~= items@.take(i as int));
        let it = &items[i];
        let ghost prev = selection_of(items@.take(i as int));
        let ghost av = string_views(archives@);
        if chars_of(it.wad_path.as_str()).len() == 0 || chars_of(it.rel_path.as_str()).len() == 0 {
            skipped = skipped + 1;
        } else {
            match parse_hash_hex(it.path_hash.as_str()) {
                None => {
                    skipped = skipped + 1;
                },
                Some(h) => {
                    let rel = normalize_rel_chars(&chars_of(it.rel_path.as_str()));
                    if !is_safe_rel_chars(&rel) {
                        skipped = skipped + 1;
                    } else {
                        let mut g: usize = 0;
                        while g < archives.len() && archives[g] != it.wad_path
                            invariant
                                g <= archives@.len(),
                                forall|j: int| 0 <= j < g ==> archives@[j]@ != it.wad_path@,
                            decreases archives@.len() - g,
                        {
                            g = g + 1;
                        }
                        if g == archives.len() {
                            assert(!av.contains(it.wad_path@)) by {
                                if av.contains(it.wad_path@) {
                                    let j = choose|j: int| 0 <= j < av.len() && av[j] == it.wad_path@;
                                    assert(archives@[j]@ == it.wad_path@);
                                }
                            }
                            archives.push(it.wad_path.clone());
                            assert(string_views(archives@) =~= av.push(it.wad_path@));
                        } else {
                            assert(av[g as int] == it.wad_path@);
                        }
                        let ghost before = entries@;
                        entries.push(SelectedEntry { archive: g, path_hash: h, rel_path: string_of(&rel) });
                        assert forall|k: int| 0 <= k < entries@.len() implies {
                            let e = #[trigger] entries@[k];
                            let s = selection_of(items@.take(i + 1)).1[k];
                            &&& e.archive < archives@.len()
                            &&& archives@[e.archive as int]@ == s.0
                            &&& e.path_hash == s.1
                            &&& e.rel_path@ == s.2
                        } by {
                            if k < before.len() {
                                assert(entries@[k] == before[k]);
                                assert(selection_of(items@.take(i + 1)).1[k] == prev.1[k]);
                            }
                        }
                    }
                }
            }
        }
        i = i + 1;
    }
    assert(items@.take(items@.len() as int) =~= items@);
    SelectionPlan { archives, entries, skipped }
}

/// The little-endian 32-bit number at `o`.
pub open spec fn le_u32_at(b: Seq<u8>, o: int) -> nat {
    b[o] as nat + 256 * (b[o + 1] as nat) + 65536 * (b[o + 2] as nat) + 16777216 * (b[o + 3] as nat)
}

/// Where the chunk count stands in an archive of major version `major`: after the
/// magic and version, and after the signature and checksum of versions 2 and 3.
pub open spec fn count_offset(major: u8) -> int {
    if major == 0 {
        4
    } else if major == 1 {
        8
    } else if major == 2 {
        100
    } else {
        268
    }
}

/// The sizes of version-3 chunk entry `i` are safe to read: its compressed size
/// is at most the archive's length, and non-negative where the format stores it
/// signed (minor versions up to 3), as is its uncompressed size there. A
/// sub-chunked entry (compression kind 4) is no larger compressed than
/// uncompressed, so a zstd frame found in its bytes never starts past its
/// uncompressed size.
pub open spec fn chunk_size_ok(b: Seq<u8>, i: int) -> bool {
    let e = count_offset(3) + 4 + 32 * i;
    let at = e + 12;
    &&& le_u32_at(b, at) <= b.len()
    &&& b[3] <= 3 ==> b[at + 3] < 128 && b[e + 19] < 128
    &&& b[e + 20] % 16 == 4 ==> le_u32_at(b, at) <= le_u32_at(b, e + 16)
}

/// The sizes an archive declares stay within what the archive reader handles: the
/// chunk count is non-negative and its table fits in the archive, and every chunk
/// entry passes [`chunk_size_ok`]. Bytes that the reader refuses before that point
/// (no `RW` magic, a major version above 3, too short) qualify too.
pub open spec fn mount_bounded(b: Seq<u8>) -> bool {
    b.len() < 4 || b[0] != 0x52 || b[1] != 0x57 || b[2] > 3 || {
        let o = count_offset(b[2]);
        o + 4 > b.len() || (b[o + 3] < 128 && o + 4 + 32 * le_u32_at(b, o) <= b.len() && (b[2] == 3
            ==> forall|
            i: int,
        |
            0 <= i < le_u32_at(b, o) && o + 4 + 32 * (i + 1) <= b.len() ==> #[trigger] chunk_size_ok(
                b,
                i,
            )))
    }
}

fn le_u32_exec(b: &[u8], o: usize) -> (r: u64)
    requires
        o + 4 <= b@.len(),
    ensures
        r as nat == le_u32_at(b@, o as int),
{
    (b[o] as u64) + 256 * (b[o + 1] as u64) + 65536 * (b[o + 2] as u64) + 16777216 * (b[o
        + 3] as u64)
}

/// Decides [`mount_bounded`].
pub fn mount_is_bounded(b: &[u8]) -> (r: bool)
    ensures
        r == mount_bounded(b@),
{
    if b.len() < 4 || b[0] != 0x52 || b[1] != 0x57 || b[2] > 3 {
        return true;
    }
    let o: usize = if b[2] == 0 {
        4
    } else if b[2] == 1 {
        8
    } else if b[2] == 2 {
        100
    } else {
        268
    };
    if o + 4 > b.len() {
        return true;
    }
    let count = le_u32_exec(b, o);
    if b[o + 3] >= 128 || (o as u64) + 4 + 32 * count > b.len() as u64 {
        return false;
    }
    if b[2] != 3 {
        return true;
    }
    let n = b.len();
    let mut i: u64 = 0;
    let mut at: usize = 272;
    while i < count && at <= n - 32
        invariant
            b@.len() == n,
            n >= 272,
            b@[0] == 0x52 && b@[1] == 0x57,
            o == 268,
            b@[2] == 3,
            count as nat == le_u32_at(b@, 268),
            count <= n,
            i <= count,
            at == 272 + 32 * i,
            forall|j: int| 0 <= j < i ==> #[trigger] chunk_size_ok(b@, j),
        decreases count - i,
    {
        let size = le_u32_exec(b, at + 12);
        let full = le_u32_exec(b, at + 16);
        if size > n as u64 || (b[3] <= 3 && (b[at + 15] >= 128 || b[at + 19] >= 128)) || (b[at
            + 20] % 16 == 4 && size > full) {
            assert(!chunk_size_ok(b@, i as int));
            assert(0 <= i < le_u32_at(b@, 268) && 268 + 4 + 32 * (i + 1) <= b@.len());
            assert(count_offset(b@[2]) == 268);
            return false;
        }
        assert(chunk_size_ok(b@, i as int));
        i = i + 1;
        at = at + 32;
    }
    assert forall|j: int|
        0 <= j < le_u32_at(b@, 268) && 268 + 4 + 32 * (j + 1) <= b@.len() implies #[trigger] chunk_size_ok(
        b@,
        j,
    ) by {
        if j >= i {
            assert(268 + 4 + 32 * (j + 1) >= at + 32);
        }
    }
    true
}

/// Declares `ltk_wad::WadError`, the archive reader's error: carried, never inspected.
#[verifier::external_type_specification]
#[verifier::external_body]
pub struct ExWadError(ltk_wad::WadError);

/// The path hashes of an archive's chunk table, as the archive reader lists them.
pub uninterp spec fn wad_chunk_hashes(bytes: Seq<u8>) -> Seq<u64>;

/// Whether the archive reader accepts the bytes.
pub uninterp spec fn wad_mounts(bytes: Seq<u8>) -> bool;

/// The little-endian 64-bit number at `o`.
pub open spec fn le_u64_at(b: Seq<u8>, o: int) -> nat {
    le_u32_at(b, o) + 4294967296 * le_u32_at(b, o + 4)
}

/// The path hash at the start of each 32-byte entry of the chunk table, in table
/// order.
pub open spec fn table_hashes(b: Seq<u8>) -> Seq<u64> {
    let o = count_offset(b[2]);
    Seq::new(le_u32_at(b, o), |i: int| le_u64_at(b, o + 4 + 32 * i) as u64)
}

/// Relies on `ltk_wad::Wad::mount` over the archive's bytes, which depends on the
/// bytes alone: on success, the path hashes of its chunk table, which the crate
/// keeps sorted ascending. Mounting fails without the `RW` magic and for a major
/// version above 3.
#[verifier::external_body]
fn mount_chunk_hashes(bytes: &[u8]) -> (r: Result<Vec<u64>, ltk_wad::WadError>)
    requires
        mount_bounded(bytes@),
    ensures
        r is Ok <==> wad_mounts(bytes@),
        r matches Ok(v) ==> v@ == wad_chunk_hashes(bytes@),
        r matches Ok(v) ==> v@.to_multiset() == table_hashes(bytes@).to_multiset(),
        r matches Ok(v) ==> forall|i: int, j: int| 0 <= i < j < v@.len() ==> v@[i] <= v@[j],
        r is Ok ==> bytes@.len() >= 4 && bytes@[0] == 0x52 && bytes@[1] == 0x57 && bytes@[2] <= 3,
{
    ltk_wad::Wad::mount(std::io::Cursor::new(bytes)).map(
        |w| w.chunks().iter().map(|c| c.path_hash.0).collect(),
    )
}

/// Lists an archive from its bytes: its chunk hashes in ascending order, each
/// resolved through `catalog`. An archive that declares sizes beyond what the
/// reader handles, or that the reader refuses, gives a listing with no chunks and
/// the reason.
pub fn index_archive(catalog: &Hashtable, path: &str, bytes: &[u8]) -> (r: IndexBatch)
    requires
        catalog.wf(),
    ensures
        r.path@ == path@,
        r.error is None <==> (mount_bounded(bytes@) && wad_mounts(bytes@)),
        r.error is Some ==> r.chunk_count == 0 && r.paths@.len() == 0,
        r.error is None ==> {
            let hs = wad_chunk_hashes(bytes@);
            &&& mount_bounded(bytes@)
            &&& bytes@[0] == 0x52 && bytes@[1] == 0x57
            &&& r.chunk_count == hs.len()
            &&& r.paths@.len() == hs.len()
            &&& forall|i: int|
                0 <= i < hs.len() ==> (#[trigger] r.paths@[i])@ == resolved(catalog.view(), hs[i])
        },
{
    let reason: Vec<char>;
    if !mount_is_bounded(bytes) {
        reason = chars_of("chunk table declares more than the file holds");
    } else {
        match mount_chunk_hashes(bytes) {
            Ok(hashes) => {
                return catalog.index_batch(path, &hashes);
            },
            Err(_) => {
                reason = chars_of("Failed to mount WAD file");
            },
        }
    }
    let e = Error::Wad { message: string_of(&reason), path: Some(string_of(&chars_of(path))) };
    IndexBatch {
        path: string_of(&chars_of(path)),
        chunk_count: 0,
        paths: Vec::new(),
        error: Some(e.to_string()),
    }
}

} // verus!
