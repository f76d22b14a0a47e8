//! Classification of asset paths and their rewriting into a creator-owned
//! namespace.
use vstd::prelude::*;
use crate::text::{
    after_last, after_last_exec, append_chars, chars_of, contains_ci, contains_ci_exec,
    contains_string, decimal, decimal_exec, digit_run, digit_run_exec, eq_ci, eq_ci_exec, find_char,
    lower, lower_chars, parse_unsigned, parse_unsigned_exec, replace_char, replace_char_exec,
    run_before, slice_chars, starts_ci, starts_with_ci, starts_with_exact, string_of, string_views,
};

verus! {

/// What a rewrite run is configured with.
pub struct RepathConfig {
    pub creator_name: String,
    pub project_name: String,
    pub champion: String,
    pub target_skin_id: u32,
    pub cleanup_unused: bool,
}

/// The model of a [`RepathConfig`].
pub struct RepathConfigView {
    pub creator: Seq<char>,
    pub project: Seq<char>,
    pub champion: Seq<char>,
    pub target_skin_id: u32,
    pub cleanup_unused: bool,
}

impl View for RepathConfig {
    type V = RepathConfigView;

    open spec fn view(&self) -> RepathConfigView {
        RepathConfigView {
            creator: self.creator_name@,
            project: self.project_name@,
            champion: self.champion@,
            target_skin_id: self.target_skin_id,
            cleanup_unused: self.cleanup_unused,
        }
    }
}

/// A name with its spaces turned into dashes.
pub open spec fn dashed(s: Seq<char>) -> Seq<char> {
    replace_char(s, ' ', '-')
}

/// `<creator>/<project>`, spaces replaced by dashes.
pub open spec fn prefix_of(c: RepathConfigView) -> Seq<char> {
    dashed(c.creator) + seq!['/'] + dashed(c.project)
}

impl RepathConfig {
    /// The project namespace `<creator>/<project>`, spaces replaced by dashes.
    pub fn prefix(&self) -> (r: String)
        ensures
            r@ == prefix_of(self@),
    {
        string_of(&prefix_chars(self))
    }
}

fn prefix_chars(c: &RepathConfig) -> (r: Vec<char>)
    ensures
        r@ == prefix_of(c@),
{
    let mut r = replace_char_exec(&chars_of(&c.creator_name), ' ', '-');
    r.push('/');
    let p = replace_char_exec(&chars_of(&c.project_name), ' ', '-');
    append_chars(&mut r, &p);
    r
}

/// The part of an asset path after its `assets/` or `data/` root (either case),
/// or `None` where it has neither.
pub open spec fn root_rest(p: Seq<char>) -> Option<Seq<char>> {
    if starts_ci(p, "assets/"@) {
        Some(p.skip("assets/"@.len() as int))
    } else if starts_ci(p, "data/"@) {
        Some(p.skip("data/"@.len() as int))
    } else {
        None
    }
}

/// Whether `s` names an asset: it starts with `assets/` or `data/`, in any case.
pub open spec fn is_asset(s: Seq<char>) -> bool {
    root_rest(s) is Some
}

/// The form of a path used for set membership: ASCII lowercase, `\` made `/`.
pub open spec fn normalized(s: Seq<char>) -> Seq<char> {
    replace_char(lower(s), '\\', '/')
}

/// The kind of an asset path, with the parts of it that its rewrite keeps.
pub enum AssetPath {
    SoundSfx { filename: String },
    SoundVo { original_path: String },
    ChampionHud { filename: String },
    TargetChampionSkin { skin_id: Option<u32>, subpath: String },
    OtherChampion { subpath: String },
    Shared { subpath: String },
}

/// The model of an [`AssetPath`].
pub enum AssetPathView {
    SoundSfx { filename: Seq<char> },
    SoundVo { original_path: Seq<char> },
    ChampionHud { filename: Seq<char> },
    TargetChampionSkin { skin_id: Option<u32>, subpath: Seq<char> },
    OtherChampion { subpath: Seq<char> },
    Shared { subpath: Seq<char> },
}

impl View for AssetPath {
    type V = AssetPathView;

    open spec fn view(&self) -> AssetPathView {
        match self {
            AssetPath::SoundSfx { filename } => AssetPathView::SoundSfx { filename: filename@ },
            AssetPath::SoundVo { original_path } => AssetPathView::SoundVo {
                original_path: original_path@,
            },
            AssetPath::ChampionHud { filename } => AssetPathView::ChampionHud {
                filename: filename@,
            },
            AssetPath::TargetChampionSkin { skin_id, subpath } =>
                AssetPathView::TargetChampionSkin { skin_id: *skin_id, subpath: subpath@ },
            AssetPath::OtherChampion { subpath } => AssetPathView::OtherChampion {
                subpath: subpath@,
            },
            AssetPath::Shared { subpath } => AssetPathView::Shared { subpath: subpath@ },
        }
    }
}

/// The model of an optional classification.
pub open spec fn opt_view(a: Option<AssetPath>) -> Option<AssetPathView> {
    match a {
        Some(x) => Some(x@),
        None => None,
    }
}

/// The skin number of a champion subpath `skins/skin<N>/...`, if it has one.
pub open spec fn skin_id_of(sub: Seq<char>) -> Option<u32> {
    if starts_ci(sub, "skins/"@) {
        let rest = sub.skip("skins/"@.len() as int);
        let seg = rest.take(run_before(rest, '/') as int);
        if starts_ci(seg, "skin"@) {
            match parse_unsigned(seg.skip("skin"@.len() as int), 10, 0xffff_ffff) {
                Some(v) => Some(v as u32),
                None => None,
            }
        } else {
            None
        }
    } else {
        None
    }
}

/// The classification of a champion path; `rest` follows `characters/`.
pub open spec fn classify_character(rest: Seq<char>, target: Seq<char>) -> AssetPathView {
    let n = run_before(rest, '/');
    let champion = rest.take(n as int);
    let sub = if n < rest.len() {
        rest.skip(n + 1 as int)
    } else {
        Seq::<char>::empty()
    };
    if starts_ci(sub, "hud/"@) && eq_ci(champion, target) {
        AssetPathView::ChampionHud { filename: sub.skip("hud/"@.len() as int) }
    } else if eq_ci(champion, target) {
        AssetPathView::TargetChampionSkin { skin_id: skin_id_of(sub), subpath: sub }
    } else {
        AssetPathView::OtherChampion { subpath: sub }
    }
}

/// How an asset path is classified for the champion `target`.
pub open spec fn classify(p: Seq<char>, target: Seq<char>) -> Option<AssetPathView> {
    match root_rest(p) {
        None => None,
        Some(st) => if starts_ci(st, "sounds/"@) {
            let sp = st.skip("sounds/"@.len() as int);
            if contains_ci(sp, "/vo/"@) {
                Some(AssetPathView::SoundVo { original_path: p })
            } else {
                Some(AssetPathView::SoundSfx { filename: sp.skip(after_last(sp, '/') as int) })
            }
        } else if starts_ci(st, "characters/"@) {
            Some(classify_character(st.skip("characters/"@.len() as int), target))
        } else if starts_ci(st, "shared/"@) {
            Some(AssetPathView::Shared { subpath: st.skip("shared/"@.len() as int) })
        } else {
            Some(AssetPathView::Shared { subpath: st })
        },
    }
}

/// A path that begins with a skin folder `skin<digits>/` gets that folder renamed
/// to `skin<id>/`; any other path, and every later segment, is kept.
pub open spec fn remap_skin(p: Seq<char>, id: u32) -> Seq<char> {
    let k = digit_run(p.skip(4)) as int;
    if p.len() >= 4 && p.take(4) == "skin"@ && k > 0 && 4 + k < p.len() && p[4 + k] == '/' {
        "skin"@ + decimal(id as nat) + p.skip(4 + k)
    } else {
        p
    }
}

/// The part of a champion subpath after a leading `skins/` (either case).
pub open spec fn after_skins(sub: Seq<char>) -> Seq<char> {
    if starts_ci(sub, "skins/"@) {
        sub.skip("skins/"@.len() as int)
    } else {
        sub
    }
}

/// Where a classified path is rewritten to.
pub open spec fn repathed(a: AssetPathView, c: RepathConfigView) -> Seq<char> {
    match a {
        AssetPathView::SoundSfx { filename } => "ASSETS/"@ + prefix_of(c) + "/audio/sfx/"@
            + filename,
        AssetPathView::SoundVo { original_path } => original_path,
        AssetPathView::ChampionHud { filename } => "ASSETS/"@ + dashed(c.creator) + "/hud/"@
            + filename,
        AssetPathView::TargetChampionSkin { subpath, .. } => "ASSETS/"@ + prefix_of(c) + seq![
            '/',
        ] + remap_skin(after_skins(subpath), c.target_skin_id),
        AssetPathView::OtherChampion { subpath } => "ASSETS/"@ + dashed(c.creator)
            + "/shared-champion/"@ + after_skins(subpath),
        AssetPathView::Shared { subpath } => "ASSETS/"@ + dashed(c.creator) + "/shared/"@
            + subpath,
    }
}

/// The rewrite of any path: classified paths go where [`repathed`] says, others stay.
pub open spec fn rewrite(p: Seq<char>, c: RepathConfigView) -> Seq<char> {
    match classify(p, c.champion) {
        Some(a) => repathed(a, c),
        None => p,
    }
}

fn root_rest_exec(p: &[char]) -> (r: Option<Vec<char>>)
    ensures
        match r {
            Some(v) => root_rest(p@) == Some(v@),
            None => root_rest(p@) is None,
        },
{
    let a = chars_of("assets/");
    if starts_with_ci(p, &a) {
        return Some(slice_chars(p, a.len(), p.len()));
    }
    let d = chars_of("data/");
    if starts_with_ci(p, &d) {
        return Some(slice_chars(p, d.len(), p.len()));
    }
    None
}

/// Whether `s` names an asset: it starts with `assets/` or `data/`, in any case.
pub fn is_asset_path(s: &str) -> (r: bool)
    ensures
        r == is_asset(s@),
{
    let p = chars_of(s);
    root_rest_exec(&p).is_some()
}

/// The membership form of a path: ASCII lowercase, backslashes made forward slashes.
pub fn normalize_path(s: &str) -> (r: String)
    ensures
        r@ == normalized(s@),
{
    let low = lower_chars(&chars_of(s));
    string_of(&replace_char_exec(&low, '\\', '/'))
}

fn remap_skin_chars(p: &[char], id: u32) -> (r: Vec<char>)
    ensures
        r@ == remap_skin(p@, id),
{
    let sk = chars_of("skin");
    proof {
        reveal_strlit("skin");
    }
    if !starts_with_exact(p, &sk) {
        return slice_chars(p, 0, p.len());
    }
    let k = digit_run_exec(p, 4);
    if k > 0 && k < p.len() - 4 && p[4 + k] == '/' {
        let mut r = sk;
        append_chars(&mut r, &decimal_exec(id as u64));
        append_chars(&mut r, &slice_chars(p, 4 + k, p.len()));
        r
    } else {
        slice_chars(p, 0, p.len())
    }
}

/// Renames a leading skin folder `skin<digits>/` to `skin<target_skin_id>/`;
/// file names that mention a skin, and every other path, stay as they are.
pub fn remap_skin_ids(path: &str, target_skin_id: u32) -> (r: String)
    ensures
        r@ == remap_skin(path@, target_skin_id),
{
    string_of(&remap_skin_chars(&chars_of(path), target_skin_id))
}

fn skin_id_exec(sub: &[char]) -> (r: Option<u32>)
    ensures
        r == skin_id_of(sub@),
{
    let skins = chars_of("skins/");
    if !starts_with_ci(sub, &skins) {
        return None;
    }
    let rest = slice_chars(sub, skins.len(), sub.len());
    let n = find_char(&rest, '/');
    let seg = slice_chars(&rest, 0, n);
    let sk = chars_of("skin");
    if !starts_with_ci(&seg, &sk) {
        return None;
    }
    let digits = slice_chars(&seg, sk.len(), seg.len());
    match parse_unsigned_exec(&digits, 10, 0xffff_ffff) {
        Some(v) => Some(v as u32),
        None => None,
    }
}

fn classify_character_exec(rest: &[char], target: &[char]) -> (r: AssetPath)
    ensures
        r@ == classify_character(rest@, target@),
{
    let n = find_char(rest, '/');
    let champion = slice_chars(rest, 0, n);
    let sub: Vec<char> = if n < rest.len() {
        slice_chars(rest, n + 1, rest.len())
    } else {
        Vec::new()
    };
    assert(sub@ =~= (if n < rest@.len() {
        rest@.skip(n + 1)
    } else {
        Seq::<char>::empty()
    }));
    let same = eq_ci_exec(&champion, target);
    let hud = chars_of("hud/");
    if starts_with_ci(&sub, &hud) && same {
        AssetPath::ChampionHud { filename: string_of(&slice_chars(&sub, hud.len(), sub.len())) }
    } else if same {
        AssetPath::TargetChampionSkin { skin_id: skin_id_exec(&sub), subpath: string_of(&sub) }
    } else {
        AssetPath::OtherChampion { subpath: string_of(&sub) }
    }
}

fn after_skins_exec(sub: &[char]) -> (r: Vec<char>)
    ensures
        r@ == after_skins(sub@),
{
    let skins = chars_of("skins/");
    if starts_with_ci(sub, &skins) {
        slice_chars(sub, skins.len(), sub.len())
    } else {
        slice_chars(sub, 0, sub.len())
    }
}

impl AssetPath {
    /// Classifies an asset path for the champion `target_champion`; `None` where
    /// the path has no `assets/` or `data/` root.
    pub fn parse(path: &str, target_champion: &str) -> (r: Option<AssetPath>)
        ensures
            opt_view(r) == classify(path@, target_champion@),
    {
        let p = chars_of(path);
        let target = chars_of(target_champion);
        let st = match root_rest_exec(&p) {
            Some(v) => v,
            None => return None,
        };
        let sounds = chars_of("sounds/");
        if starts_with_ci(&st, &sounds) {
            let sp = slice_chars(&st, sounds.len(), st.len());
            if contains_ci_exec(&sp, &chars_of("/vo/")) {
                return Some(AssetPath::SoundVo { original_path: string_of(&p) });
            }
            let k = after_last_exec(&sp, '/');
            return Some(AssetPath::SoundSfx { filename: string_of(&slice_chars(&sp, k, sp.len())) });
        }
        let characters = chars_of("characters/");
        if starts_with_ci(&st, &characters) {
            let rest = slice_chars(&st, characters.len(), st.len());
            return Some(classify_character_exec(&rest, &target));
        }
        let shared = chars_of("shared/");
        if starts_with_ci(&st, &shared) {
            Some(AssetPath::Shared { subpath: string_of(&slice_chars(&st, shared.len(), st.len())) })
        } else {
            Some(AssetPath::Shared { subpath: string_of(&st) })
        }
    }

    /// The path this asset is rewritten to under `config`.
    pub fn to_repathed(&self, config: &RepathConfig) -> (r: String)
        ensures
            r@ == repathed(self@, config@),
    {
        string_of(&self.repathed_chars(config))
    }

    fn repathed_chars(&self, config: &RepathConfig) -> (r: Vec<char>)
        ensures
            r@ == repathed(self@, config@),
    {
        let creator = replace_char_exec(&chars_of(&config.creator_name), ' ', '-');
        let mut r = chars_of("ASSETS/");
        match self {
            AssetPath::SoundSfx { filename } => {
                append_chars(&mut r, &prefix_chars(config));
                append_chars(&mut r, &chars_of("/audio/sfx/"));
                append_chars(&mut r, &chars_of(filename));
            },
            AssetPath::SoundVo { original_path } => {
                return chars_of(original_path);
            },
            AssetPath::ChampionHud { filename } => {
                append_chars(&mut r, &creator);
                append_chars(&mut r, &chars_of("/hud/"));
                append_chars(&mut r, &chars_of(filename));
            },
            AssetPath::TargetChampionSkin { subpath, .. } => {
                append_chars(&mut r, &prefix_chars(config));
                r.push('/');
                let after = after_skins_exec(&chars_of(subpath));
                append_chars(&mut r, &remap_skin_chars(&after, config.target_skin_id));
            },
            AssetPath::OtherChampion { subpath } => {
                append_chars(&mut r, &creator);
                append_chars(&mut r, &chars_of("/shared-champion/"));
                append_chars(&mut r, &after_skins_exec(&chars_of(subpath)));
            },
            AssetPath::Shared { subpath } => {
                append_chars(&mut r, &creator);
                append_chars(&mut r, &chars_of("/shared/"));
                append_chars(&mut r, &chars_of(subpath));
            },
        }
        r
    }
}

/// Rewrites one path under `config`: an asset path goes where its class sends it,
/// any other path is returned unchanged. The namespace comes from `config`; the
/// second argument is not consulted.
pub fn apply_prefix_to_path(path: &str, _prefix: &str, config: &RepathConfig) -> (r: String)
    ensures
        r@ == rewrite(path@, config@),
{
    match AssetPath::parse(path, &config.champion) {
        Some(a) => a.to_repathed(config),
        None => string_of(&chars_of(path)),
    }
}

/// The folder that holds a champion's extracted archive: `<champion>.wad.client`,
/// the champion in ASCII lowercase.
pub open spec fn wad_folder_of(champion: Seq<char>) -> Seq<char> {
    lower(champion) + ".wad.client"@
}

/// The folder of a champion's extracted archive.
pub fn wad_folder_name(champion: &str) -> (r: String)
    ensures
        r@ == wad_folder_of(champion@),
{
    let mut v = lower_chars(&chars_of(champion));
    append_chars(&mut v, &chars_of(".wad.client"));
    string_of(&v)
}

/// A skin number written with at least two digits.
pub open spec fn padded2(n: u32) -> Seq<char> {
    if n < 10 {
        seq!['0'] + decimal(n as nat)
    } else {
        decimal(n as nat)
    }
}

/// Where a champion's main skin BIN may stand, plain and zero-padded:
/// `data/characters/<champion>/skins/skin<N>.bin`.
pub open spec fn main_bin_paths(champion: Seq<char>, skin_id: u32) -> Seq<Seq<char>> {
    seq![
        "data/characters/"@ + lower(champion) + "/skins/skin"@ + decimal(skin_id as nat) + ".bin"@,
        "data/characters/"@ + lower(champion) + "/skins/skin"@ + padded2(skin_id) + ".bin"@,
    ]
}

fn padded2_exec(n: u32) -> (r: Vec<char>)
    ensures
        r@ == padded2(n),
{
    let d = decimal_exec(n as u64);
    if n < 10 {
        let mut r: Vec<char> = Vec::new();
        r.push('0');
        append_chars(&mut r, &d);
        r
    } else {
        d
    }
}

/// The two relative paths the main skin BIN of `champion` may have.
pub fn main_bin_candidates(champion: &str, skin_id: u32) -> (r: Vec<String>)
    ensures
        string_views(r@) == main_bin_paths(champion@, skin_id),
{
    let low = lower_chars(&chars_of(champion));
    let mut a = chars_of("data/characters/");
    append_chars(&mut a, &low);
    append_chars(&mut a, &chars_of("/skins/skin"));
    let mut b = slice_chars(&a, 0, a.len());
    assert(a@ =~= "data/characters/"@ + lower(champion@) + "/skins/skin"@);
    append_chars(&mut a, &decimal_exec(skin_id as u64));
    append_chars(&mut a, &chars_of(".bin"));
    append_chars(&mut b, &padded2_exec(skin_id));
    append_chars(&mut b, &chars_of(".bin"));
    assert(a@ =~= main_bin_paths(champion@, skin_id)[0]);
    assert(b@ =~= main_bin_paths(champion@, skin_id)[1]);
    let mut r: Vec<String> = Vec::new();
    r.push(string_of(&a));
    r.push(string_of(&b));
    assert(string_views(r@) =~= main_bin_paths(champion@, skin_id));
    r
}

/// `s` ends with `p` up to ASCII case.
pub open spec fn ends_ci(s: Seq<char>, p: Seq<char>) -> bool {
    p.len() <= s.len() && eq_ci(s.skip(s.len() - p.len()), p)
}

fn ends_with_ci(s: &[char], p: &[char]) -> (r: bool)
    ensures
        r == ends_ci(s@, p@),
{
    if p.len() > s.len() {
        return false;
    }
    let tail = slice_chars(s, s.len() - p.len(), s.len());
    eq_ci_exec(&tail, p)
}

/// Whether a referenced file is moved: BIN files stay, but for concatenated ones.
pub open spec fn is_relocated(p: Seq<char>) -> bool {
    !ends_ci(p, ".bin"@) || contains_ci(p, "__concat"@)
}

/// The moves that relocation performs, in the order of `existing`: each relocated
/// reference whose file is present (`present[i]`, false past its end) goes to its
/// rewrite, unless an earlier move already claimed the same destination (compared
/// in normalized form), in which case it stays.
pub open spec fn relocations(existing: Seq<Seq<char>>, present: Seq<bool>, c: RepathConfigView) -> Seq<
    (Seq<char>, Seq<char>),
>
    decreases existing.len(),
{
    if existing.len() == 0 {
        Seq::empty()
    } else {
        let prev = relocations(existing.drop_last(), present, c);
        let k = existing.len() - 1;
        let p = existing.last();
        let dest = rewrite(p, c);
        if is_relocated(p) && k < present.len() && present[k] && !prev.map_values(
            |m: (Seq<char>, Seq<char>)| normalized(m.1),
        ).contains(normalized(dest)) {
            prev.push((p, dest))
        } else {
            prev
        }
    }
}

/// The model of a list of moves.
pub open spec fn moves_view(v: Seq<(String, String)>) -> Seq<(Seq<char>, Seq<char>)> {
    v.map_values(|m: (String, String)| (m.0@, m.1@))
}

fn normalized_dests(v: &Vec<(String, String)>) -> (r: Vec<String>)
    ensures
        string_views(r@) == moves_view(v@).map_values(
            |m: (Seq<char>, Seq<char>)| normalized(m.1),
        ),
{
    let mut r: Vec<String> = Vec::new();
    let mut i: usize = 0;
    while i < v.len()
        invariant
            i <= v@.len(),
            string_views(r@) == moves_view(v@).take(i as int).map_values(
                |m: (Seq<char>, Seq<char>)| normalized(m.1),
            ),
        decreases v@.len() - i,
    {
        let ghost before = r@;
        r.push(normalize_path(v[i].1.as_str()));
        assert(string_views(r@) =~= string_views(before).push(
            normalized(v@[i as int].1@),
        ));
        assert(moves_view(v@).take(i + 1) =~= moves_view(v@).take(i as int).push(
            moves_view(v@)[i as int],
        ));
        i = i + 1;
        assert(string_views(r@) =~= moves_view(v@).take(i as int).map_values(
            |m: (Seq<char>, Seq<char>)| normalized(m.1),
        ));
    }
    assert(moves_view(v@).take(v@.len() as int) =~= moves_view(v@));
    r
}

/// Plans the relocation of the referenced files that exist on disk;
/// `source_exists[i]` tells whether the file of `existing[i]` stands at exactly
/// that path.
pub fn plan_relocations(existing: &Vec<String>, source_exists: &Vec<bool>, config: &RepathConfig) -> (r: Vec<
    (String, String),
>)
    ensures
        moves_view(r@) == relocations(string_views(existing@), source_exists@, config@),
{
    let ghost ex = string_views(existing@);
    let mut moves: Vec<(String, String)> = Vec::new();
    let concat = chars_of("__concat");
    let bin = chars_of(".bin");
    let mut i: usize = 0;
    while i < existing.len()
        invariant
            ex == string_views(existing@),
            concat@ == "__concat"@,
            bin@ == ".bin"@,
            i <= existing@.len(),
            moves_view(moves@) == relocations(ex.take(i as int), source_exists@, config@),
        decreases existing@.len() - i,
    {
        assert(ex.take(i + 1).drop_last() =~= ex.take(i as int));
        assert(ex.take(i + 1).last() == existing@[i as int]@);
        let p = &existing[i];
        let pc = chars_of(p.as_str());
        let present = i < source_exists.len() && source_exists[i];
        if present && (!ends_with_ci(&pc, &bin) || contains_ci_exec(&pc, &concat)) {
            let dest = apply_prefix_to_path(p.as_str(), "", config);
            let taken = normalized_dests(&moves);
            if !contains_string(&taken, &normalize_path(dest.as_str())) {
                let ghost before = moves@;
                moves.push((p.clone(), dest));
                assert(moves_view(moves@) =~= moves_view(before).push((p@, rewrite(p@, config@))));
            }
        }
        i = i + 1;
    }
    assert(ex.take(existing@.len() as int) =~= ex);
    moves
}

/// Whether an extracted BIN survives cleanup: a concatenated BIN, or the target
/// skin's BIN (plain or zero-padded number) under a `skins/` or `animations/` folder.
pub open spec fn bin_kept(rel: Seq<char>, target_skin_id: u32) -> bool {
    let n = normalized(rel);
    let f = n.skip(after_last(n, '/') as int);
    contains_ci(f, "__concat"@) || ((contains_ci(n, "/skins/"@) || contains_ci(n, "/animations/"@))
        && (f == "skin"@ + decimal(target_skin_id as nat) + ".bin"@ || f == "skin"@ + padded2(
        target_skin_id,
    ) + ".bin"@))
}

fn seq_eq(a: &[char], b: &[char]) -> (r: bool)
    ensures
        r == (a@ == b@),
{
    if a.len() != b.len() {
        return false;
    }
    let mut i: usize = 0;
    while i < a.len()
        invariant
            a@.len() == b@.len(),
            i <= a@.len(),
            forall|j: int| 0 <= j < i ==> a@[j] == b@[j],
        decreases a@.len() - i,
    {
        if a[i] != b[i] {
            return false;
        }
        i = i + 1;
    }
    assert(a@ =~= b@);
    true
}

/// Whether cleanup keeps the extracted BIN at `rel_path`.
pub fn keep_bin(rel_path: &str, target_skin_id: u32) -> (r: bool)
    ensures
        r == bin_kept(rel_path@, target_skin_id),
{
    let n = replace_char_exec(&lower_chars(&chars_of(rel_path)), '\\', '/');
    let k = after_last_exec(&n, '/');
    let f = slice_chars(&n, k, n.len());
    if contains_ci_exec(&f, &chars_of("__concat")) {
        return true;
    }
    let in_folder = contains_ci_exec(&n, &chars_of("/skins/")) || contains_ci_exec(
        &n,
        &chars_of("/animations/"),
    );
    if !in_folder {
        return false;
    }
    let mut plain = chars_of("skin");
    append_chars(&mut plain, &decimal_exec(target_skin_id as u64));
    append_chars(&mut plain, &chars_of(".bin"));
    let mut padded = chars_of("skin");
    append_chars(&mut padded, &padded2_exec(target_skin_id));
    append_chars(&mut padded, &chars_of(".bin"));
    seq_eq(&f, &plain) || seq_eq(&f, &padded)
}

/// Where relocation sends each existing reference, in normalized form.
pub open spec fn expected_of(existing: Seq<Seq<char>>, c: RepathConfigView) -> Seq<Seq<char>> {
    existing.map_values(|p: Seq<char>| normalized(rewrite(p, c)))
}

/// Where relocation sends each existing reference, normalized, in order.
pub fn expected_destinations(existing: &Vec<String>, config: &RepathConfig) -> (r: Vec<String>)
    ensures
        string_views(r@) == expected_of(string_views(existing@), config@),
{
    let ghost ex = string_views(existing@);
    let mut r: Vec<String> = Vec::new();
    let mut i: usize = 0;
    while i < existing.len()
        invariant
            ex == string_views(existing@),
            i <= existing@.len(),
            string_views(r@) == expected_of(ex.take(i as int), config@),
        decreases existing@.len() - i,
    {
        let ghost before = r@;
        let d = apply_prefix_to_path(existing[i].as_str(), "", config);
        r.push(normalize_path(d.as_str()));
        assert(string_views(r@) =~= string_views(before).push(
            normalized(rewrite(ex[i as int], config@)),
        ));
        assert(expected_of(ex.take(i + 1), config@) =~= expected_of(ex.take(i as int), config@).push(
            normalized(rewrite(ex[i as int], config@)),
        ));
        i = i + 1;
    }
    assert(ex.take(existing@.len() as int) =~= ex);
    r
}

/// Whether the optional cleanup removes the non-BIN file at `rel`: it is not an
/// expected destination, or it lies outside `assets/<creator>/`.
pub open spec fn file_unused(rel: Seq<char>, expected: Seq<Seq<char>>, creator: Seq<char>) -> bool {
    let n = normalized(rel);
    let pfx = "assets/"@ + lower(dashed(creator)) + seq!['/'];
    !expected.contains(n) || !(pfx.len() <= n.len() && n.take(pfx.len() as int) == pfx)
}

/// Whether the optional cleanup removes the non-BIN file at `rel_path`.
pub fn is_unused_file(rel_path: &str, expected: &Vec<String>, config: &RepathConfig) -> (r: bool)
    ensures
        r == file_unused(rel_path@, string_views(expected@), config.creator_name@),
{
    let n = normalize_path(rel_path);
    if !contains_string(expected, &n) {
        return true;
    }
    let mut pfx = chars_of("assets/");
    append_chars(&mut pfx, &lower_chars(&replace_char_exec(&chars_of(&config.creator_name), ' ', '-')));
    pfx.push('/');
    assert(pfx@ =~= "assets/"@ + lower(dashed(config.creator_name@)) + seq!['/']);
    !starts_with_exact(&chars_of(n.as_str()), &pfx)
}

/// Relocation moves nothing exactly when no existing reference is both of a kind
/// that is moved (not a BIN, or a concatenated one) and present on disk.
pub proof fn law_no_relocation_without_movable_references(
    existing: Seq<Seq<char>>,
    present: Seq<bool>,
    c: RepathConfigView,
)
    ensures
        relocations(existing, present, c).len() == 0 <==> forall|i: int|
            0 <= i < existing.len() ==> !(is_relocated(#[trigger] existing[i]) && i < present.len()
                && present[i]),
    decreases existing.len(),
{
    if existing.len() > 0 {
        let d = existing.drop_last();
        let k = existing.len() - 1;
        law_no_relocation_without_movable_references(d, present, c);
        assert forall|i: int| 0 <= i < d.len() implies #[trigger] d[i] == existing[i] by {}
        let prev = relocations(d, present, c);
        if prev.len() == 0 && is_relocated(existing.last()) && k < present.len() && present[k] {
            let dests = prev.map_values(|m: (Seq<char>, Seq<char>)| normalized(m.1));
            assert(dests.len() == 0);
            assert(!dests.contains(normalized(rewrite(existing.last(), c))));
        }
        if forall|i: int|
            0 <= i < existing.len() ==> !(is_relocated(#[trigger] existing[i]) && i < present.len()
                && present[i]) {
            assert forall|i: int| 0 <= i < d.len() implies !(is_relocated(#[trigger] d[i]) && i
                < present.len() && present[i]) by {
                assert(d[i] == existing[i]);
            }
            assert(!(is_relocated(existing[k]) && k < present.len() && present[k]));
        }
        if relocations(existing, present, c).len() == 0 {
            assert forall|i: int| 0 <= i < existing.len() implies !(is_relocated(
                #[trigger] existing[i],
            ) && i < present.len() && present[i]) by {
                if i < d.len() {
                    assert(d[i] == existing[i]);
                }
            }
        }
    }
}

} // verus!
