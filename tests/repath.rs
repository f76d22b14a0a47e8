use flint_core::repath::{
    apply_prefix_to_path, is_asset_path, normalize_path, remap_skin_ids, AssetPath, RepathConfig,
};

#[test]
fn test_is_asset_path() {
    assert!(is_asset_path("assets/characters/ahri/skin0.bin"));
    assert!(is_asset_path("data/effects.bin"));
    assert!(!is_asset_path("some/other/path.txt"));
}

#[test]
fn test_remap_skin_ids() {
    assert_eq!(
        remap_skin_ids("skin0/base.skn", 42),
        "skin42/base.skn"
    );

    assert_eq!(
        remap_skin_ids("skin17/renekton_skin17_base.skn", 42),
        "skin42/renekton_skin17_base.skn"
    );

    assert_eq!(
        remap_skin_ids("animations/skin8.bin", 42),
        "animations/skin8.bin"
    );

    assert_eq!(
        remap_skin_ids("skin0/particles/blade.dds", 42),
        "skin42/particles/blade.dds"
    );
}

#[test]
fn test_apply_prefix_to_path_target_champion() {
    let config = RepathConfig {
        creator_name: "SirDexal".to_string(),
        project_name: "Renny".to_string(),
        champion: "Renekton".to_string(),
        target_skin_id: 42,
        cleanup_unused: true,
    };

    assert_eq!(
        apply_prefix_to_path(
            "assets/characters/renekton/skins/skin17/renekton_skin17_base.skn",
            "SirDexal/Renny",
            &config
        ),
        "ASSETS/SirDexal/Renny/skin42/renekton_skin17_base.skn"
    );

    assert_eq!(
        apply_prefix_to_path(
            "assets/characters/renekton/skins/skin17/particles/blade.dds",
            "SirDexal/Renny",
            &config
        ),
        "ASSETS/SirDexal/Renny/skin42/particles/blade.dds"
    );

    assert_eq!(
        apply_prefix_to_path(
            "data/characters/renekton/animations/skin8.bin",
            "SirDexal/Renny",
            &config
        ),
        "ASSETS/SirDexal/Renny/animations/skin8.bin"
    );
}

#[test]
fn test_apply_prefix_to_path_other_champions() {
    let config = RepathConfig {
        creator_name: "SirDexal".to_string(),
        project_name: "Renny".to_string(),
        champion: "Renekton".to_string(),
        target_skin_id: 42,
        cleanup_unused: true,
    };

    assert_eq!(
        apply_prefix_to_path(
            "assets/characters/sona/skins/skin5/sona_skin5_base.skn",
            "SirDexal/Renny",
            &config
        ),
        "ASSETS/SirDexal/shared-champion/skin5/sona_skin5_base.skn"
    );

    assert_eq!(
        apply_prefix_to_path(
            "assets/characters/ahri/skins/skin0/particles/orb.dds",
            "SirDexal/Renny",
            &config
        ),
        "ASSETS/SirDexal/shared-champion/skin0/particles/orb.dds"
    );
}

#[test]
fn test_apply_prefix_to_path_shared_assets() {
    let config = RepathConfig {
        creator_name: "SirDexal".to_string(),
        project_name: "Renny".to_string(),
        champion: "Renekton".to_string(),
        target_skin_id: 42,
        cleanup_unused: true,
    };

    assert_eq!(
        apply_prefix_to_path(
            "assets/particles/fire_vfx.dds",
            "SirDexal/Renny",
            &config
        ),
        "ASSETS/SirDexal/shared/particles/fire_vfx.dds"
    );

    assert_eq!(
        apply_prefix_to_path(
            "data/maps/summoners_rift/textures/grass.dds",
            "SirDexal/Renny",
            &config
        ),
        "ASSETS/SirDexal/shared/maps/summoners_rift/textures/grass.dds"
    );

    assert_eq!(
        apply_prefix_to_path(
            "assets/shared/particles/fire.dds",
            "SirDexal/Renny",
            &config
        ),
        "ASSETS/SirDexal/shared/particles/fire.dds"
    );
}

#[test]
fn test_apply_prefix_to_path_sounds() {
    let config = RepathConfig {
        creator_name: "SirDexal".to_string(),
        project_name: "Cozy".to_string(),
        champion: "Kayn".to_string(),
        target_skin_id: 20,
        cleanup_unused: true,
    };

    assert_eq!(
        apply_prefix_to_path(
            "assets/sounds/wwise2016/sfx/characters/kayn/skins/skin20/kayn_skin20_sfx_audio.bnk",
            "SirDexal/Cozy",
            &config
        ),
        "ASSETS/SirDexal/Cozy/audio/sfx/kayn_skin20_sfx_audio.bnk"
    );

    assert_eq!(
        apply_prefix_to_path(
            "assets/sounds/wwise2016/vo/en_us/characters/kayn/kayn_vo.wpk",
            "SirDexal/Cozy",
            &config
        ),
        "assets/sounds/wwise2016/vo/en_us/characters/kayn/kayn_vo.wpk"
    );

    assert_eq!(
        apply_prefix_to_path(
            "data/sounds/wwise2016/sfx/characters/kayn/skins/skin20/kayn_skin20_impact.bnk",
            "SirDexal/Cozy",
            &config
        ),
        "ASSETS/SirDexal/Cozy/audio/sfx/kayn_skin20_impact.bnk"
    );

    assert_eq!(
        apply_prefix_to_path(
            "assets/sounds/wwise2016/vo/ja_jp/characters/kayn/kayn_vo.wpk",
            "SirDexal/Cozy",
            &config
        ),
        "assets/sounds/wwise2016/vo/ja_jp/characters/kayn/kayn_vo.wpk"
    );

    assert_eq!(
        apply_prefix_to_path(
            "ASSETS/Sounds/wwise2016/VO/en_us/characters/kayn/kayn_vo.wpk",
            "SirDexal/Cozy",
            &config
        ),
        "ASSETS/Sounds/wwise2016/VO/en_us/characters/kayn/kayn_vo.wpk"
    );
}

#[test]
fn test_apply_prefix_to_path_hud() {
    let config = RepathConfig {
        creator_name: "SirDexal".to_string(),
        project_name: "Renny".to_string(),
        champion: "Renekton".to_string(),
        target_skin_id: 42,
        cleanup_unused: true,
    };

    assert_eq!(
        apply_prefix_to_path(
            "assets/characters/renekton/hud/renekton_hud.dds",
            "SirDexal/Renny",
            &config
        ),
        "ASSETS/SirDexal/hud/renekton_hud.dds"
    );
}

#[test]
fn test_asset_path_parse_sound_sfx() {
    let path = "assets/sounds/wwise2016/sfx/characters/kayn/skins/skin20/kayn_skin20_sfx.bnk";
    let parsed = AssetPath::parse(path, "Kayn");

    assert!(parsed.is_some());
    match parsed.unwrap() {
        AssetPath::SoundSfx { filename } => {
            assert_eq!(filename, "kayn_skin20_sfx.bnk");
        }
        _ => panic!("Expected SoundSfx variant"),
    }
}

#[test]
fn test_asset_path_parse_sound_vo() {
    let path = "assets/sounds/wwise2016/vo/en_us/characters/kayn/kayn_vo.wpk";
    let parsed = AssetPath::parse(path, "Kayn");

    assert!(parsed.is_some());
    match parsed.unwrap() {
        AssetPath::SoundVo { original_path } => {
            assert_eq!(original_path, path);
        }
        _ => panic!("Expected SoundVo variant"),
    }
}

#[test]
fn test_asset_path_parse_champion_hud() {
    let path = "assets/characters/renekton/hud/renekton_hud.dds";
    let parsed = AssetPath::parse(path, "Renekton");

    assert!(parsed.is_some());
    match parsed.unwrap() {
        AssetPath::ChampionHud { filename } => {
            assert_eq!(filename, "renekton_hud.dds");
        }
        _ => panic!("Expected ChampionHud variant"),
    }
}

#[test]
fn test_asset_path_parse_target_champion_skin() {
    let path = "assets/characters/kayn/skins/skin20/particles/blade.dds";
    let parsed = AssetPath::parse(path, "Kayn");

    assert!(parsed.is_some());
    match parsed.unwrap() {
        AssetPath::TargetChampionSkin { skin_id, subpath } => {
            assert_eq!(skin_id, Some(20));
            assert_eq!(subpath, "skins/skin20/particles/blade.dds");
        }
        _ => panic!("Expected TargetChampionSkin variant"),
    }
}

#[test]
fn test_asset_path_parse_other_champion() {
    let path = "assets/characters/sona/skins/skin5/particles/orb.dds";
    let parsed = AssetPath::parse(path, "Kayn"); // Kayn is target, Sona is other

    assert!(parsed.is_some());
    match parsed.unwrap() {
        AssetPath::OtherChampion { subpath } => {
            assert_eq!(subpath, "skins/skin5/particles/orb.dds");
        }
        _ => panic!("Expected OtherChampion variant"),
    }
}

#[test]
fn test_asset_path_parse_shared() {
    let path = "assets/particles/fire.dds";
    let parsed = AssetPath::parse(path, "Kayn");

    assert!(parsed.is_some());
    match parsed.unwrap() {
        AssetPath::Shared { subpath } => {
            assert_eq!(subpath, "particles/fire.dds");
        }
        _ => panic!("Expected Shared variant"),
    }
}

#[test]
fn test_asset_path_parse_shared_with_prefix() {
    let path = "assets/shared/particles/fire.dds";
    let parsed = AssetPath::parse(path, "Kayn");

    assert!(parsed.is_some());
    match parsed.unwrap() {
        AssetPath::Shared { subpath } => {
            assert_eq!(subpath, "particles/fire.dds"); // "shared/" stripped
        }
        _ => panic!("Expected Shared variant"),
    }
}

#[test]
fn test_asset_path_parse_case_insensitive() {
    let path = "ASSETS/SOUNDS/wwise2016/VO/en_us/kayn_vo.wpk";
    let parsed = AssetPath::parse(path, "Kayn");

    assert!(parsed.is_some());
    match parsed.unwrap() {
        AssetPath::SoundVo { original_path } => {
            assert_eq!(original_path, path);
        }
        _ => panic!("Expected SoundVo variant"),
    }
}

#[test]
fn test_asset_path_to_repathed_sfx() {
    let config = RepathConfig {
        creator_name: "TestCreator".to_string(),
        project_name: "TestProject".to_string(),
        champion: "Kayn".to_string(),
        target_skin_id: 20,
        cleanup_unused: true,
    };

    let asset_path = AssetPath::SoundSfx {
        filename: "kayn_skin20_sfx.bnk".to_string(),
    };

    assert_eq!(
        asset_path.to_repathed(&config),
        "ASSETS/TestCreator/TestProject/audio/sfx/kayn_skin20_sfx.bnk"
    );
}

#[test]
fn test_asset_path_to_repathed_vo() {
    let config = RepathConfig {
        creator_name: "TestCreator".to_string(),
        project_name: "TestProject".to_string(),
        champion: "Kayn".to_string(),
        target_skin_id: 20,
        cleanup_unused: true,
    };

    let original = "assets/sounds/wwise2016/vo/en_us/kayn_vo.wpk";
    let asset_path = AssetPath::SoundVo {
        original_path: original.to_string(),
    };

    assert_eq!(asset_path.to_repathed(&config), original);
}

#[test]
fn test_asset_path_invalid() {
    let path = "sounds/wwise2016/sfx/test.bnk";
    let parsed = AssetPath::parse(path, "Kayn");
    assert!(parsed.is_none());
}
