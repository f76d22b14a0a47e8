use flint_core::bin::{collect_asset_paths, repath_leaves, StringLeaf};
use flint_core::repath::RepathConfig;

fn leaf(v: &str, key: bool) -> StringLeaf {
    StringLeaf { value: v.to_string(), in_map_key: key }
}

fn cozy() -> RepathConfig {
    RepathConfig {
        creator_name: "SirDexal".to_string(),
        project_name: "Cozy".to_string(),
        champion: "Kayn".to_string(),
        target_skin_id: 20,
        cleanup_unused: false,
    }
}

#[test]
fn repath_vo_unchanged() {
    let vo = "assets/sounds/wwise2016/vo/en_us/characters/kayn/kayn_vo.wpk";
    let mut leaves = vec![leaf(vo, false)];
    let existing = vec![vo.to_string()];
    let n = repath_leaves(&mut leaves, &existing, &cozy());
    assert_eq!(n, 1);
    assert_eq!(leaves[0].value, vo);
}

#[test]
fn repath_sfx_rewritten_to_filename_only() {
    let sfx = "assets/sounds/wwise2016/sfx/characters/kayn/skins/skin20/kayn_skin20_sfx_audio.bnk";
    let mut leaves = vec![leaf(sfx, false), leaf(sfx, true), leaf("not/an/asset.dds", false)];
    let existing = collect_asset_paths(&leaves);
    assert_eq!(existing, vec![sfx.to_string(), sfx.to_string()]);
    let n = repath_leaves(&mut leaves, &existing, &cozy());
    assert_eq!(n, 1);
    assert_eq!(leaves[0].value, "ASSETS/SirDexal/Cozy/audio/sfx/kayn_skin20_sfx_audio.bnk");
    assert_eq!(leaves[1].value, sfx);
    assert_eq!(leaves[2].value, "not/an/asset.dds");
}

#[test]
fn repath_skips_paths_missing_on_disk() {
    let mut leaves = vec![leaf("ASSETS/Characters/Kayn/Skins/Skin20/a.dds", false)];
    let n = repath_leaves(&mut leaves, &vec![], &cozy());
    assert_eq!(n, 0);
    let existing = collect_asset_paths(&leaves);
    assert_eq!(existing, vec!["assets/characters/kayn/skins/skin20/a.dds".to_string()]);
    let n = repath_leaves(&mut leaves, &existing, &cozy());
    assert_eq!(n, 1);
    assert_eq!(leaves[0].value, "ASSETS/SirDexal/Cozy/Skin20/a.dds");
}
