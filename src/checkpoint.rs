//! Content-addressed checkpoints of a project directory: manifests, the object
//! store's layout, diffs between manifests and the plan of a restore.
use vstd::prelude::*;
use crate::text::{
    after_last, after_last_exec, append_chars, chars_of, contains_string, hex_digit, lower,
    lower_chars, replace_char, replace_char_exec, slice_chars, string_of, string_views,
};

verus! {

/// The kind of asset a project file holds, by extension.
#[derive(Debug, Clone, Copy, PartialEq, Eq, Structural)]
pub enum AssetType {
    Texture,
    Model,
    Animation,
    Bin,
    Audio,
    Data,
    Unknown,
}

/// Names of directories that snapshots and restores leave alone.
pub open spec fn is_skipped_dir(name: Seq<char>) -> bool {
    name == ".flint"@ || name == ".git"@ || name == "node_modules"@ || name == "output"@
}

fn str_eq(a: &str, b: &str) -> (r: bool)
    ensures
        r == (a@ == b@),
{
    let x = string_of(&chars_of(a));
    let y = string_of(&chars_of(b));
    x == y
}

/// Whether a directory of this name is left out of snapshots and restores.
pub fn should_skip_dir(name: &str) -> (r: bool)
    ensures
        r == is_skipped_dir(name@),
{
    str_eq(name, ".flint") || str_eq(name, ".git") || str_eq(name, "node_modules") || str_eq(
        name,
        "output",
    )
}

/// The extension of the file a path names: the text after the last `.` of its
/// last segment, where that `.` is not the segment's first character.
pub open spec fn extension_of(path: Seq<char>) -> Option<Seq<char>> {
    let name = path.skip(after_last(path, '/') as int);
    let d = after_last(name, '.');
    if d >= 2 {
        Some(name.skip(d as int))
    } else {
        None
    }
}

fn extension_exec(path: &[char]) -> (r: Option<Vec<char>>)
    ensures
        match r {
            Some(v) => extension_of(path@) == Some(v@),
            None => extension_of(path@) is None,
        },
{
    let s = after_last_exec(path, '/');
    let name = slice_chars(path, s, path.len());
    let d = after_last_exec(&name, '.');
    if d >= 2 {
        Some(slice_chars(&name, d, name.len()))
    } else {
        None
    }
}

/// `e` is one of `l`.
pub open spec fn in_list(e: Seq<char>, l: Seq<Seq<char>>) -> bool {
    exists|i: int| 0 <= i < l.len() && l[i] == e
}

/// The asset kind of a lowercase extension.
pub open spec fn type_of_ext(e: Seq<char>) -> AssetType {
    if in_list(e, seq!["dds"@, "tex"@, "png"@, "jpg"@, "jpeg"@, "tga"@]) {
        AssetType::Texture
    } else if in_list(e, seq!["skn"@, "skl"@, "mapgeo"@, "wgeo"@, "sco"@, "scb"@]) {
        AssetType::Model
    } else if e == "anm"@ {
        AssetType::Animation
    } else if e == "bin"@ {
        AssetType::Bin
    } else if in_list(e, seq!["bnk"@, "wpk"@, "wav"@, "ogg"@, "mp3"@]) {
        AssetType::Audio
    } else if in_list(e, seq!["json"@, "txt"@, "lua"@, "xml"@, "ritobin"@, "py"@]) {
        AssetType::Data
    } else {
        AssetType::Unknown
    }
}

/// The asset kind of a path, by its extension in ASCII lowercase.
pub open spec fn type_of_path(path: Seq<char>) -> AssetType {
    match extension_of(path) {
        Some(e) => type_of_ext(lower(e)),
        None => type_of_ext(Seq::empty()),
    }
}

pub open spec fn str_views(l: Seq<&str>) -> Seq<Seq<char>> {
    l.map_values(|s: &str| s@)
}

fn in_list_exec(e: &str, l: &[&str]) -> (r: bool)
    ensures
        r == in_list(e@, str_views(l@)),
{
    let mut i: usize = 0;
    while i < l.len()
        invariant
            i <= l@.len(),
            forall|j: int| 0 <= j < i ==> l@[j]@ != e@,
        decreases l@.len() - i,
    {
        if str_eq(e, l[i]) {
            assert(str_views(l@)[i as int] == e@);
            return true;
        }
        i = i + 1;
    }
    assert forall|j: int| 0 <= j < l@.len() implies #[trigger] str_views(l@)[j] != e@ by {}
    false
}

fn type_of_ext_exec(e: &str) -> (r: AssetType)
    ensures
        r == type_of_ext(e@),
{
    let t = ["dds", "tex", "png", "jpg", "jpeg", "tga"];
    let m = ["skn", "skl", "mapgeo", "wgeo", "sco", "scb"];
    let a = ["bnk", "wpk", "wav", "ogg", "mp3"];
    let d = ["json", "txt", "lua", "xml", "ritobin", "py"];
    assert(str_views(t@) =~= seq!["dds"@, "tex"@, "png"@, "jpg"@, "jpeg"@, "tga"@]);
    assert(str_views(m@) =~= seq!["skn"@, "skl"@, "mapgeo"@, "wgeo"@, "sco"@, "scb"@]);
    assert(str_views(a@) =~= seq!["bnk"@, "wpk"@, "wav"@, "ogg"@, "mp3"@]);
    assert(str_views(d@) =~= seq!["json"@, "txt"@, "lua"@, "xml"@, "ritobin"@, "py"@]);
    if in_list_exec(e, &t) {
        AssetType::Texture
    } else if in_list_exec(e, &m) {
        AssetType::Model
    } else if str_eq(e, "anm") {
        AssetType::Animation
    } else if str_eq(e, "bin") {
        AssetType::Bin
    } else if in_list_exec(e, &a) {
        AssetType::Audio
    } else if in_list_exec(e, &d) {
        AssetType::Data
    } else {
        AssetType::Unknown
    }
}

/// The asset kind of a project file, by its extension.
pub fn detect_type(path: &str) -> (r: AssetType)
    ensures
        r == type_of_path(path@),
{
    match extension_exec(&chars_of(path)) {
        Some(e) => {
            let low = string_of(&lower_chars(&e));
            type_of_ext_exec(low.as_str())
        },
        None => {
            proof {
                reveal_strlit("");
            }
            assert(""@ =~= Seq::<char>::empty());
            type_of_ext_exec("")
        },
    }
}

/// One file of a checkpoint's manifest.
pub struct FileEntry {
    /// Relative to the project root, with forward slashes.
    pub path: String,
    /// Lowercase hex SHA-256 of the contents.
    pub hash: String,
    pub size: u64,
    pub asset_type: AssetType,
}

pub struct FileEntryView {
    pub path: Seq<char>,
    pub hash: Seq<char>,
    pub size: u64,
    pub asset_type: AssetType,
}

impl View for FileEntry {
    type V = FileEntryView;

    open spec fn view(&self) -> FileEntryView {
        FileEntryView {
            path: self.path@,
            hash: self.hash@,
            size: self.size,
            asset_type: self.asset_type,
        }
    }
}

impl FileEntry {
    /// A field-by-field copy.
    pub fn copy(&self) -> (r: FileEntry)
        ensures
            r@ == self@,
    {
        FileEntry {
            path: self.path.clone(),
            hash: self.hash.clone(),
            size: self.size,
            asset_type: self.asset_type,
        }
    }
}

pub open spec fn entries_view(v: Seq<FileEntry>) -> Seq<FileEntryView> {
    v.map_values(|e: FileEntry| e@)
}

/// Whether a manifest holds an entry for `p`.
pub open spec fn has_path(m: Seq<FileEntryView>, p: Seq<char>) -> bool {
    exists|i: int| 0 <= i < m.len() && (#[trigger] m[i]).path == p
}

/// The entry of a manifest for `p`.
pub open spec fn entry_for(m: Seq<FileEntryView>, p: Seq<char>) -> FileEntryView {
    m[choose|i: int| 0 <= i < m.len() && (#[trigger] m[i]).path == p]
}

/// A manifest holds at most one entry per path.
pub open spec fn paths_unique(m: Seq<FileEntryView>) -> bool {
    forall|i: int, j: int| 0 <= i < j < m.len() ==> (#[trigger] m[i]).path != (#[trigger] m[j]).path
}

/// Entries of `to` whose path `from` lacks, in `to`'s order.
pub open spec fn added_of(from: Seq<FileEntryView>, to: Seq<FileEntryView>) -> Seq<FileEntryView>
    decreases to.len(),
{
    if to.len() == 0 {
        Seq::empty()
    } else if !has_path(from, to.last().path) {
        added_of(from, to.drop_last()).push(to.last())
    } else {
        added_of(from, to.drop_last())
    }
}

/// `(old, new)` for each entry of `to` whose path `from` holds with another hash.
pub open spec fn modified_of(from: Seq<FileEntryView>, to: Seq<FileEntryView>) -> Seq<
    (FileEntryView, FileEntryView),
>
    decreases to.len(),
{
    if to.len() == 0 {
        Seq::empty()
    } else if has_path(from, to.last().path) && entry_for(from, to.last().path).hash
        != to.last().hash {
        modified_of(from, to.drop_last()).push((entry_for(from, to.last().path), to.last()))
    } else {
        modified_of(from, to.drop_last())
    }
}

/// The difference between two manifests, keyed by path.
pub struct CheckpointDiff {
    pub added: Vec<FileEntry>,
    pub modified: Vec<(FileEntry, FileEntry)>,
    pub deleted: Vec<FileEntry>,
}

pub open spec fn pairs_view(v: Seq<(FileEntry, FileEntry)>) -> Seq<(FileEntryView, FileEntryView)> {
    v.map_values(|p: (FileEntry, FileEntry)| (p.0@, p.1@))
}

fn find_path(m: &Vec<FileEntry>, p: &String) -> (r: Option<usize>)
    requires
        paths_unique(entries_view(m@)),
    ensures
        match r {
            Some(i) => i < m@.len() && has_path(entries_view(m@), p@) && entry_for(
                entries_view(m@),
                p@,
            ) == m@[i as int]@,
            None => !has_path(entries_view(m@), p@),
        },
{
    let mut i: usize = 0;
    while i < m.len()
        invariant
            paths_unique(entries_view(m@)),
            i <= m@.len(),
            forall|j: int| 0 <= j < i ==> m@[j].path@ != p@,
        decreases m@.len() - i,
    {
        if m[i].path == *p {
            proof {
                let v = entries_view(m@);
                assert(v[i as int].path == p@);
                let k = choose|k: int| 0 <= k < v.len() && (#[trigger] v[k]).path == p@;
                if k != i {
                    assert(v[k].path != v[i as int].path);
                }
            }
            return Some(i);
        }
        i = i + 1;
    }
    assert forall|j: int| 0 <= j < m@.len() implies (#[trigger] entries_view(m@)[j]).path
        != p@ by {}
    None
}

/// Lists the entries of `to` whose path `from` lacks, then those whose hash changed.
fn diff_forward(from: &Vec<FileEntry>, to: &Vec<FileEntry>) -> (r: (Vec<FileEntry>, Vec<
    (FileEntry, FileEntry),
>))
    requires
        paths_unique(entries_view(from@)),
    ensures
        entries_view(r.0@) == added_of(entries_view(from@), entries_view(to@)),
        pairs_view(r.1@) == modified_of(entries_view(from@), entries_view(to@)),
{
    let ghost fv = entries_view(from@);
    let mut added: Vec<FileEntry> = Vec::new();
    let mut modified: Vec<(FileEntry, FileEntry)> = Vec::new();
    let mut i: usize = 0;
    while i < to.len()
        invariant
            fv == entries_view(from@),
            paths_unique(fv),
            i <= to@.len(),
            entries_view(added@) == added_of(fv, entries_view(to@).take(i as int)),
            pairs_view(modified@) == modified_of(fv, entries_view(to@).take(i as int)),
        decreases to@.len() - i,
    {
        let ghost tv = entries_view(to@).take(i + 1);
        assert(tv.drop_last() =~= entries_view(to@).take(i as int));
        assert(tv.last() == to@[i as int]@);
        let e = &to[i];
        match find_path(from, &e.path) {
            None => {
                added.push(e.copy());
                assert(entries_view(added@) =~= added_of(fv, tv));
                assert(pairs_view(modified@) =~= modified_of(fv, tv));
            },
            Some(k) => {
                if from[k].hash != e.hash {
                    modified.push((from[k].copy(), e.copy()));
                    assert(pairs_view(modified@) =~= modified_of(fv, tv));
                } else {
                    assert(pairs_view(modified@) =~= modified_of(fv, tv));
                }
                assert(entries_view(added@) =~= added_of(fv, tv));
            },
        }
        i = i + 1;
    }
    assert(entries_view(to@).take(to@.len() as int) =~= entries_view(to@));
    (added, modified)
}

/// Compares two manifests by path: entries only in `to` are added, entries in both
/// with different hashes are modified (old, new), entries only in `from` are deleted.
pub fn diff_manifests(from: &Vec<FileEntry>, to: &Vec<FileEntry>) -> (r: CheckpointDiff)
    requires
        paths_unique(entries_view(from@)),
        paths_unique(entries_view(to@)),
    ensures
        entries_view(r.added@) == added_of(entries_view(from@), entries_view(to@)),
        pairs_view(r.modified@) == modified_of(entries_view(from@), entries_view(to@)),
        entries_view(r.deleted@) == added_of(entries_view(to@), entries_view(from@)),
{
    let (added, modified) = diff_forward(from, to);
    let (deleted, _) = diff_forward(to, from);
    CheckpointDiff { added, modified, deleted }
}

/// The SHA-256 digest of a byte sequence.
pub uninterp spec fn sha256_digest(data: Seq<u8>) -> Seq<u8>;

/// Relies on `sha2::Sha256::digest`: the 32-byte SHA-256 digest of `data`.
#[verifier::external_body]
fn sha256(data: &[u8]) -> (r: Vec<u8>)
    ensures
        r@ == sha256_digest(data@),
        r@.len() == 32,
{
    <sha2::Sha256 as sha2::Digest>::digest(data).to_vec()
}

/// Two lowercase hex digits per byte, high nibble first.
pub open spec fn hex_bytes(b: Seq<u8>) -> Seq<char>
    decreases b.len(),
{
    if b.len() == 0 {
        Seq::empty()
    } else {
        hex_bytes(b.drop_last()) + seq![
            hex_digit((b.last() / 16) as u64),
            hex_digit((b.last() % 16) as u64),
        ]
    }
}

proof fn lemma_hex_bytes_len(b: Seq<u8>)
    ensures
        hex_bytes(b).len() == 2 * b.len(),
    decreases b.len(),
{
    if b.len() > 0 {
        lemma_hex_bytes_len(b.drop_last());
    }
}

fn hex_nibble(d: u8) -> (r: char)
    requires
        d < 16,
    ensures
        r == hex_digit(d as u64),
{
    if d < 10 {
        (d + 48) as char
    } else {
        (d + 87) as char
    }
}

/// The lowercase hex form of `b`.
pub fn hex_encode(b: &[u8]) -> (r: String)
    ensures
        r@ == hex_bytes(b@),
{
    let mut v: Vec<char> = Vec::new();
    let mut i: usize = 0;
    while i < b.len()
        invariant
            i <= b@.len(),
            v@ == hex_bytes(b@.take(i as int)),
        decreases b@.len() - i,
    {
        assert(b@.take(i + 1).drop_last() =~= b@.take(i as int));
        v.push(hex_nibble(b[i] / 16));
        v.push(hex_nibble(b[i] % 16));
        i = i + 1;
        assert(v@ =~= hex_bytes(b@.take(i as int)));
    }
    assert(b@.take(b@.len() as int) =~= b@);
    string_of(&v)
}

/// The hex SHA-256 of some contents: the name of their object.
pub open spec fn content_hash(data: Seq<u8>) -> Seq<char> {
    hex_bytes(sha256_digest(data))
}

/// Where the object of hash `h` lives under the object store: `<h[0..2]>/<h>`.
pub open spec fn object_rel(h: Seq<char>) -> Seq<char> {
    h.take(2) + seq!['/'] + h
}

/// The object-store path of a hash of at least two characters.
pub fn object_rel_path(hash: &str) -> (r: String)
    requires
        hash@.len() >= 2,
    ensures
        r@ == object_rel(hash@),
{
    let h = chars_of(hash);
    let mut r = slice_chars(&h, 0, 2);
    r.push('/');
    append_chars(&mut r, &h);
    string_of(&r)
}

/// Distinct hashes have distinct objects, so the store holds one object per content.
pub proof fn law_object_paths_match_hashes(h1: Seq<char>, h2: Seq<char>)
    requires
        h1.len() >= 2,
        h2.len() >= 2,
    ensures
        object_rel(h1) == object_rel(h2) <==> h1 == h2,
{
    if object_rel(h1) == object_rel(h2) {
        assert(h1 =~= object_rel(h1).skip(3));
        assert(h2 =~= object_rel(h2).skip(3));
    }
}

/// The content hashes a manifest refers to.
pub open spec fn hashes_of(m: Seq<FileEntryView>) -> Set<Seq<char>> {
    Set::new(|h: Seq<char>| exists|i: int| 0 <= i < m.len() && (#[trigger] m[i]).hash == h)
}

/// The manifest of a snapshot being taken, and the objects it has stored.
pub struct SnapshotBuilder {
    manifest: Vec<FileEntry>,
    objects: Vec<String>,
}

impl SnapshotBuilder {
    pub closed spec fn manifest_view(&self) -> Seq<FileEntryView> {
        entries_view(self.manifest@)
    }

    /// The hashes whose objects this snapshot has stored, in order.
    pub closed spec fn object_hashes(&self) -> Seq<Seq<char>> {
        string_views(self.objects@)
    }

    /// One entry per path; exactly the manifest's hashes stored, each once; every
    /// hash 64 hex digits long.
    pub closed spec fn wf(&self) -> bool {
        &&& paths_unique(self.manifest_view())
        &&& self.object_hashes().no_duplicates()
        &&& self.object_hashes().to_set() == hashes_of(self.manifest_view())
        &&& forall|i: int|
            0 <= i < self.manifest@.len() ==> (#[trigger] self.manifest@[i]).hash@.len() == 64
    }

    pub fn new() -> (r: SnapshotBuilder)
        ensures
            r.wf(),
            r.manifest_view() == Seq::<FileEntryView>::empty(),
    {
        let r = SnapshotBuilder { manifest: Vec::new(), objects: Vec::new() };
        assert(r.object_hashes().to_set() =~= hashes_of(r.manifest_view()));
        assert(r.manifest_view() =~= Seq::<FileEntryView>::empty());
        r
    }

    /// Records a project file. The path is made forward-slashed. Returns the
    /// object path to store the contents at when no earlier file of this snapshot
    /// had the same contents; a path already recorded is left as it was.
    pub fn add_file(&mut self, rel_path: &str, data: &[u8]) -> (r: Option<String>)
        requires
            old(self).wf(),
        ensures
            final(self).wf(),
            content_hash(data@).len() == 64,
            has_path(old(self).manifest_view(), replace_char(rel_path@, '\\', '/'))
                ==> final(self).manifest_view() == old(self).manifest_view() && r is None,
            !has_path(old(self).manifest_view(), replace_char(rel_path@, '\\', '/'))
                ==> final(self).manifest_view() == old(self).manifest_view().push(
                FileEntryView {
                    path: replace_char(rel_path@, '\\', '/'),
                    hash: content_hash(data@),
                    size: data@.len() as u64,
                    asset_type: type_of_path(replace_char(rel_path@, '\\', '/')),
                },
            ),
            !has_path(old(self).manifest_view(), replace_char(rel_path@, '\\', '/'))
                ==> (hashes_of(old(self).manifest_view()).contains(content_hash(data@)) <==> r is None),
            r matches Some(o) ==> o@ == object_rel(content_hash(data@)),
    {
        let digest = sha256(data);
        let hash = hex_encode(&digest);
        proof {
            lemma_hex_bytes_len(digest@);
        }
        let path = string_of(&replace_char_exec(&chars_of(rel_path), '\\', '/'));
        if find_path(&self.manifest, &path).is_some() {
            return None;
        }
        let ghost old_self = *self;
        let asset_type = detect_type(path.as_str());
        let entry = FileEntry {
            path,
            hash: hash.clone(),
            size: data.len() as u64,
            asset_type,
        };
        let ghost ev = entry@;
        self.manifest.push(entry);
        assert(self.manifest_view() =~= old_self.manifest_view().push(ev));
        assert(hashes_of(self.manifest_view()) =~= hashes_of(old_self.manifest_view()).insert(
            hash@,
        )) by {
            assert(self.manifest_view()[self.manifest_view().len() - 1].hash == hash@);
            assert forall|h: Seq<char>| hashes_of(old_self.manifest_view()).contains(h) implies hashes_of(
                self.manifest_view(),
            ).contains(h) by {
                let i = choose|i: int|
                    0 <= i < old_self.manifest_view().len() && (#[trigger] old_self.manifest_view()[i]).hash
                        == h;
                assert(self.manifest_view()[i] == old_self.manifest_view()[i]);
            }
            assert forall|h: Seq<char>| hashes_of(self.manifest_view()).contains(h) && h != hash@ implies hashes_of(
                old_self.manifest_view(),
            ).contains(h) by {
                let i = choose|i: int|
                    0 <= i < self.manifest_view().len() && (#[trigger] self.manifest_view()[i]).hash
                        == h;
                assert(old_self.manifest_view()[i] == self.manifest_view()[i]);
            }
        }
        assert(paths_unique(self.manifest_view())) by {
            assert forall|i: int, j: int|
                0 <= i < j < self.manifest_view().len() implies (#[trigger] self.manifest_view()[i]).path
                != (#[trigger] self.manifest_view()[j]).path by {
                if j == self.manifest_view().len() - 1 {
                    assert(old_self.manifest_view()[i].path == self.manifest_view()[i].path);
                }
            }
        }
        assert forall|i: int| 0 <= i < self.manifest@.len() implies (#[trigger] self.manifest@[i]).hash@.len()
            == 64 by {
            if i < old_self.manifest@.len() {
                assert(self.manifest@[i] == old_self.manifest@[i]);
            }
        }
        if contains_string(&self.objects, &hash) {
            assert(self.object_hashes().to_set().contains(hash@));
            assert(hashes_of(old_self.manifest_view()).insert(hash@) =~= hashes_of(
                old_self.manifest_view(),
            ));
            return None;
        }
        let ghost before = self.object_hashes();
        self.objects.push(hash.clone());
        assert(self.object_hashes() =~= before.push(hash@));
        assert forall|x: Seq<char>| #[trigger] self.object_hashes().contains(x) <==> before.to_set().insert(
            hash@,
        ).contains(x) by {
            if self.object_hashes().contains(x) {
                let j = choose|j: int| 0 <= j < self.object_hashes().len() && self.object_hashes()[j] == x;
                if j < before.len() {
                    assert(before[j] == x);
                }
            }
            if before.contains(x) {
                let j = choose|j: int| 0 <= j < before.len() && before[j] == x;
                assert(self.object_hashes()[j] == x);
            }
            if x == hash@ {
                assert(self.object_hashes()[before.len() as int] == x);
            }
        }
        assert(self.object_hashes().to_set() =~= before.to_set().insert(hash@));
        Some(object_rel_path(hash.as_str()))
    }

    /// The finished manifest.
    pub fn into_manifest(self) -> (r: Vec<FileEntry>)
        requires
            self.wf(),
        ensures
            entries_view(r@) == self.manifest_view(),
            paths_unique(entries_view(r@)),
    {
        self.manifest
    }
}

pub open spec fn hash_seq(m: Seq<FileEntryView>) -> Seq<Seq<char>> {
    m.map_values(|e: FileEntryView| e.hash)
}

/// A snapshot stores exactly one object for each distinct content hash among its
/// files: the stored hashes are the manifest's hashes, without repeats, and there
/// are never more of them than files.
pub proof fn law_snapshot_objects(b: SnapshotBuilder)
    requires
        b.wf(),
    ensures
        b.object_hashes().to_set() == hashes_of(b.manifest_view()),
        b.object_hashes().no_duplicates(),
        b.object_hashes().len() <= b.manifest_view().len(),
{
    let m = b.manifest_view();
    assert(hashes_of(m) =~= hash_seq(m).to_set()) by {
        assert forall|h: Seq<char>| hashes_of(m).contains(h) implies hash_seq(m).contains(h) by {
            let i = choose|i: int| 0 <= i < m.len() && (#[trigger] m[i]).hash == h;
            assert(hash_seq(m)[i] == h);
        }
    }
    b.object_hashes().unique_seq_to_set();
    hash_seq(m).lemma_cardinality_of_set();
}

/// The project files that a restore deletes: those the target manifest lacks,
/// except `project.json`, in the order given.
pub open spec fn to_delete(current: Seq<Seq<char>>, target: Seq<FileEntryView>) -> Seq<Seq<char>>
    decreases current.len(),
{
    if current.len() == 0 {
        Seq::empty()
    } else if current.last() != "project.json"@ && !has_path(target, current.last()) {
        to_delete(current.drop_last(), target).push(current.last())
    } else {
        to_delete(current.drop_last(), target)
    }
}

/// Each target entry's path with the object its contents are copied from.
pub open spec fn to_copy(target: Seq<FileEntryView>) -> Seq<(Seq<char>, Seq<char>)> {
    target.map_values(|e: FileEntryView| (e.path, object_rel(e.hash)))
}

/// What a restore does to the project tree.
pub struct RestorePlan {
    /// Relative paths of the files to remove.
    pub delete: Vec<String>,
    /// `(relative path, object path)` of the files to write.
    pub copy: Vec<(String, String)>,
}

pub open spec fn copy_view(v: Seq<(String, String)>) -> Seq<(Seq<char>, Seq<char>)> {
    v.map_values(|p: (String, String)| (p.0@, p.1@))
}

/// Plans the restore of the `target` manifest over a project whose files are
/// `current` (relative, forward-slashed).
pub fn plan_restore(current: &Vec<String>, target: &Vec<FileEntry>) -> (r: RestorePlan)
    requires
        paths_unique(entries_view(target@)),
        forall|i: int| 0 <= i < target@.len() ==> (#[trigger] target@[i]).hash@.len() >= 2,
    ensures
        string_views(r.delete@) == to_delete(string_views(current@), entries_view(target@)),
        copy_view(r.copy@) == to_copy(entries_view(target@)),
{
    let ghost tv = entries_view(target@);
    let keep = string_of(&chars_of("project.json"));
    let mut delete: Vec<String> = Vec::new();
    let mut i: usize = 0;
    while i < current.len()
        invariant
            tv == entries_view(target@),
            paths_unique(tv),
            keep@ == "project.json"@,
            i <= current@.len(),
            string_views(delete@) == to_delete(string_views(current@).take(i as int), tv),
        decreases current@.len() - i,
    {
        let ghost cv = string_views(current@).take(i + 1);
        assert(cv.drop_last() =~= string_views(current@).take(i as int));
        assert(cv.last() == current@[i as int]@);
        if current[i] != keep && find_path(target, &current[i]).is_none() {
            delete.push(current[i].clone());
        }
        assert(string_views(delete@) =~= to_delete(cv, tv));
        i = i + 1;
    }
    assert(string_views(current@).take(current@.len() as int) =~= string_views(current@));
    let mut copy: Vec<(String, String)> = Vec::new();
    let mut j: usize = 0;
    while j < target.len()
        invariant
            tv == entries_view(target@),
            forall|i: int| 0 <= i < target@.len() ==> (#[trigger] target@[i]).hash@.len() >= 2,
            j <= target@.len(),
            copy_view(copy@) == to_copy(tv).take(j as int),
        decreases target@.len() - j,
    {
        let e = &target[j];
        assert(e.hash@.len() >= 2);
        let ghost before = copy@;
        let pair = (e.path.clone(), object_rel_path(e.hash.as_str()));
        assert(tv[j as int] == target@[j as int]@);
        assert((pair.0@, pair.1@) == to_copy(tv)[j as int]);
        copy.push(pair);
        assert(copy_view(copy@) =~= copy_view(before).push(to_copy(tv)[j as int]));
        assert(copy_view(copy@) =~= to_copy(tv).take(j + 1));
        j = j + 1;
    }
    assert(to_copy(tv).take(target@.len() as int) =~= to_copy(tv));
    RestorePlan { delete, copy }
}

proof fn lemma_to_delete_members(current: Seq<Seq<char>>, target: Seq<FileEntryView>, p: Seq<char>)
    ensures
        to_delete(current, target).contains(p) <==> (current.contains(p) && p != "project.json"@
            && !has_path(target, p)),
    decreases current.len(),
{
    if current.len() > 0 {
        let d = current.drop_last();
        lemma_to_delete_members(d, target, p);
        let r = to_delete(d, target);
        if current.contains(p) && p != current.last() {
            let i = choose|i: int| 0 <= i < current.len() && current[i] == p;
            assert(d[i] == p);
        }
        if d.contains(p) {
            let i = choose|i: int| 0 <= i < d.len() && d[i] == p;
            assert(current[i] == p);
        }
        if p == current.last() {
            assert(current[current.len() - 1] == p);
        }
        if current.last() != "project.json"@ && !has_path(target, current.last()) {
            let r2 = r.push(current.last());
            if r2.contains(p) && p != current.last() {
                let i = choose|i: int| 0 <= i < r2.len() && r2[i] == p;
                assert(r[i] == p);
            }
            if r.contains(p) {
                let i = choose|i: int| 0 <= i < r.len() && r[i] == p;
                assert(r2[i] == p);
            }
            assert(r2[r.len() as int] == current.last());
        }
    }
}

/// The set of project files a restore leaves: the files it did not delete and the
/// files it wrote.
pub open spec fn files_after_restore(current: Seq<Seq<char>>, target: Seq<FileEntryView>) -> Set<
    Seq<char>,
> {
    current.to_set().difference(to_delete(current, target).to_set()).union(
        to_copy(target).map_values(|c: (Seq<char>, Seq<char>)| c.0).to_set(),
    )
}

/// Restoring a checkpoint gives back its tree: afterwards the project holds exactly
/// the manifest's paths, plus `project.json` where it was present, and each path is
/// written from the object named by its entry's hash.
pub proof fn law_restore_round_trip(current: Seq<Seq<char>>, target: Seq<FileEntryView>)
    requires
        paths_unique(target),
    ensures
        files_after_restore(current, target) == Set::new(|p: Seq<char>| has_path(target, p)).union(
            current.to_set().intersect(set!["project.json"@]),
        ),
        forall|i: int|
            0 <= i < target.len() ==> (#[trigger] to_copy(target)[i]).0 == target[i].path
                && to_copy(target)[i].1 == object_rel(target[i].hash),
{
    let copies = to_copy(target).map_values(|c: (Seq<char>, Seq<char>)| c.0);
    assert forall|p: Seq<char>| copies.contains(p) <==> has_path(target, p) by {
        if copies.contains(p) {
            let i = choose|i: int| 0 <= i < copies.len() && copies[i] == p;
            assert(target[i].path == p);
        }
        if has_path(target, p) {
            let i = choose|i: int| 0 <= i < target.len() && (#[trigger] target[i]).path == p;
            assert(copies[i] == p);
        }
    }
    assert forall|p: Seq<char>| #[trigger] files_after_restore(current, target).contains(p) <==> Set::new(
        |p: Seq<char>| has_path(target, p),
    ).union(current.to_set().intersect(set!["project.json"@])).contains(p) by {
        lemma_to_delete_members(current, target, p);
    }
    assert(files_after_restore(current, target) =~= Set::new(|p: Seq<char>| has_path(target, p)).union(
        current.to_set().intersect(set!["project.json"@]),
    ));
}

/// A snapshot of the project: when it was taken, why, and its manifest.
pub struct Checkpoint {
    pub id: String,
    /// Milliseconds since the Unix epoch, UTC.
    pub timestamp_millis: i64,
    pub message: String,
    pub author: Option<String>,
    pub tags: Vec<String>,
    /// One entry per relative path.
    pub file_manifest: Vec<FileEntry>,
}

/// Progress of checkpoint creation: a phase and how far along it is.
pub struct CheckpointProgress {
    pub phase: String,
    pub current: u64,
    pub total: u64,
}

/// A stored file as shown in a preview.
pub enum CheckpointFileContent {
    /// Base64 image data (a data URL for standard image formats).
    Image { data: String, width: u32, height: u32 },
    Text { data: String },
    /// Anything else: only its size.
    Binary { size: u64 },
}

/// How a stored file is previewed, by the extension of its path.
#[derive(Debug, Clone, Copy, PartialEq, Eq, Structural)]
pub enum PreviewKind {
    /// A game texture, decoded to PNG.
    Texture,
    Png,
    Jpeg,
    Text,
    Binary,
}

/// The preview kind of a lowercase extension.
pub open spec fn preview_of_ext(e: Seq<char>) -> PreviewKind {
    if e == "dds"@ || e == "tex"@ {
        PreviewKind::Texture
    } else if e == "png"@ {
        PreviewKind::Png
    } else if e == "jpg"@ || e == "jpeg"@ {
        PreviewKind::Jpeg
    } else if in_list(
        e,
        seq![
            "json"@,
            "txt"@,
            "lua"@,
            "xml"@,
            "ritobin"@,
            "py"@,
            "cfg"@,
            "ini"@,
            "yaml"@,
            "yml"@,
            "toml"@,
            "md"@,
        ],
    ) {
        PreviewKind::Text
    } else {
        PreviewKind::Binary
    }
}

/// The preview kind of a path, by its extension in ASCII lowercase.
pub open spec fn preview_of_path(path: Seq<char>) -> PreviewKind {
    match extension_of(path) {
        Some(e) => preview_of_ext(lower(e)),
        None => preview_of_ext(Seq::empty()),
    }
}

fn preview_of_ext_exec(e: &str) -> (r: PreviewKind)
    ensures
        r == preview_of_ext(e@),
{
    let t = [
        "json",
        "txt",
        "lua",
        "xml",
        "ritobin",
        "py",
        "cfg",
        "ini",
        "yaml",
        "yml",
        "toml",
        "md",
    ];
    assert(str_views(t@) =~= seq![
        "json"@,
        "txt"@,
        "lua"@,
        "xml"@,
        "ritobin"@,
        "py"@,
        "cfg"@,
        "ini"@,
        "yaml"@,
        "yml"@,
        "toml"@,
        "md"@,
    ]);
    if str_eq(e, "dds") || str_eq(e, "tex") {
        PreviewKind::Texture
    } else if str_eq(e, "png") {
        PreviewKind::Png
    } else if str_eq(e, "jpg") || str_eq(e, "jpeg") {
        PreviewKind::Jpeg
    } else if in_list_exec(e, &t) {
        PreviewKind::Text
    } else {
        PreviewKind::Binary
    }
}

/// How the stored file at `file_path` is previewed.
pub fn preview_kind(file_path: &str) -> (r: PreviewKind)
    ensures
        r == preview_of_path(file_path@),
{
    match extension_exec(&chars_of(file_path)) {
        Some(e) => {
            let low = string_of(&lower_chars(&e));
            preview_of_ext_exec(low.as_str())
        },
        None => {
            proof {
                reveal_strlit("");
            }
            assert(""@ =~= Seq::<char>::empty());
            preview_of_ext_exec("")
        },
    }
}

/// `base` joined with `name` by one `/`.
pub open spec fn join_path(base: Seq<char>, name: Seq<char>) -> Seq<char> {
    if base.len() == 0 {
        name
    } else if base.last() == '/' {
        base + name
    } else {
        base + seq!['/'] + name
    }
}

fn join_exec(base: &[char], name: &str) -> (r: Vec<char>)
    ensures
        r@ == join_path(base@, name@),
{
    let mut r = slice_chars(base, 0, base.len());
    if base.len() > 0 && base[base.len() - 1] != '/' {
        r.push('/');
    }
    append_chars(&mut r, &chars_of(name));
    r
}

/// The checkpoint store of one project: `<project>/.flint/checkpoints` for the
/// manifests and `<project>/.flint/objects` for the contents.
pub struct CheckpointManager {
    pub project_path: String,
    pub checkpoints_dir: String,
    pub object_store: String,
}

impl CheckpointManager {
    pub fn new(project_path: String) -> (r: CheckpointManager)
        ensures
            r.project_path@ == project_path@,
            r.checkpoints_dir@ == join_path(join_path(project_path@, ".flint"@), "checkpoints"@),
            r.object_store@ == join_path(join_path(project_path@, ".flint"@), "objects"@),
    {
        let p = chars_of(&project_path);
        let flint = join_exec(&p, ".flint");
        let checkpoints_dir = string_of(&join_exec(&flint, "checkpoints"));
        let object_store = string_of(&join_exec(&flint, "objects"));
        CheckpointManager { project_path, checkpoints_dir, object_store }
    }

    /// The differences from checkpoint `from` to checkpoint `to`.
    pub fn compare_checkpoints(&self, from: &Checkpoint, to: &Checkpoint) -> (r: CheckpointDiff)
        requires
            paths_unique(entries_view(from.file_manifest@)),
            paths_unique(entries_view(to.file_manifest@)),
        ensures
            entries_view(r.added@) == added_of(
                entries_view(from.file_manifest@),
                entries_view(to.file_manifest@),
            ),
            pairs_view(r.modified@) == modified_of(
                entries_view(from.file_manifest@),
                entries_view(to.file_manifest@),
            ),
            entries_view(r.deleted@) == added_of(
                entries_view(to.file_manifest@),
                entries_view(from.file_manifest@),
            ),
    {
        diff_manifests(&from.file_manifest, &to.file_manifest)
    }
}

/// Orders checkpoints newest first, by timestamp.
pub fn sort_newest_first(cps: Vec<Checkpoint>) -> (r: Vec<Checkpoint>)
    ensures
        r@.to_multiset() == cps@.to_multiset(),
        forall|i: int, j: int|
            0 <= i < j < r@.len() ==> (#[trigger] r@[i]).timestamp_millis >= (#[trigger] r@[j]).timestamp_millis,
{
    broadcast use vstd::seq_lib::group_to_multiset_ensures;

    let mut src = cps;
    let mut out: Vec<Checkpoint> = Vec::new();
    while src.len() > 0
        invariant
            out@.to_multiset().add(src@.to_multiset()) == cps@.to_multiset(),
            forall|i: int, j: int|
                0 <= i < j < out@.len() ==> (#[trigger] out@[i]).timestamp_millis >= (#[trigger] out@[j]).timestamp_millis,
        decreases src@.len(),
    {
        let ghost before = src@;
        let c = src.pop().unwrap();
        assert(before =~= src@.push(c));
        let mut k: usize = 0;
        while k < out.len() && out[k].timestamp_millis >= c.timestamp_millis
            invariant
                k <= out@.len(),
                forall|j: int| 0 <= j < k ==> (#[trigger] out@[j]).timestamp_millis >= c.timestamp_millis,
            decreases out@.len() - k,
        {
            k = k + 1;
        }
        let ghost prev = out@;
        proof {
            if k < prev.len() {
                assert forall|j: int| k <= j < prev.len() implies (#[trigger] prev[j]).timestamp_millis
                    < c.timestamp_millis by {
                    if j > k {
                        assert(prev[k as int].timestamp_millis >= prev[j].timestamp_millis);
                    }
                }
            }
        }
        out.insert(k, c);
        assert(out@ == prev.insert(k as int, c));
        assert forall|i: int, j: int|
            0 <= i < j < out@.len() implies (#[trigger] out@[i]).timestamp_millis >= (#[trigger] out@[j]).timestamp_millis by {
            if j < k {
                assert(out@[i] == prev[i] && out@[j] == prev[j]);
            } else if j == k {
                assert(out@[i] == prev[i]);
            } else if i < k {
                assert(out@[i] == prev[i] && out@[j] == prev[j - 1]);
            } else if i == k {
                assert(out@[j] == prev[j - 1]);
            } else {
                assert(out@[i] == prev[i - 1] && out@[j] == prev[j - 1]);
            }
        }
        proof {
            vstd::seq_lib::to_multiset_insert(prev, k as int, c);
            vstd::seq_lib::to_multiset_build(src@, c);
        }
        assert(out@.to_multiset() == prev.to_multiset().insert(c));
        assert(before.to_multiset() == src@.to_multiset().insert(c));
        assert(out@.to_multiset().add(src@.to_multiset()) =~= prev.to_multiset().add(before.to_multiset()));
    }
    assert(src@.to_multiset() =~= vstd::multiset::Multiset::<Checkpoint>::empty());
    assert(out@.to_multiset().add(src@.to_multiset()) =~= out@.to_multiset());
    out
}

/// Whether a manifest holds at most one entry per path.
pub fn paths_are_unique(m: &Vec<FileEntry>) -> (r: bool)
    ensures
        r == paths_unique(entries_view(m@)),
{
    let ghost v = entries_view(m@);
    let mut j: usize = 0;
    while j < m.len()
        invariant
            v == entries_view(m@),
            j <= m@.len(),
            forall|a: int, b: int| 0 <= a < b < j ==> (#[trigger] v[a]).path != (#[trigger] v[b]).path,
        decreases m@.len() - j,
    {
        let mut i: usize = 0;
        while i < j
            invariant
                v == entries_view(m@),
                i <= j < m@.len(),
                forall|a: int, b: int| 0 <= a < b < j ==> (#[trigger] v[a]).path != (#[trigger] v[b]).path,
                forall|a: int| 0 <= a < i ==> (#[trigger] v[a]).path != v[j as int].path,
            decreases j - i,
        {
            if m[i].path == m[j].path {
                assert(v[i as int].path == v[j as int].path);
                return false;
            }
            i = i + 1;
        }
        j = j + 1;
    }
    true
}

} // verus!
