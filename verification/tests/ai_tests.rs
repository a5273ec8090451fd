use risenlab::ai::{
    bearer_config_contents, guess_creature_name, is_data_map, is_full_scene_texture, model_family, negative_prompt,
    prediction_next, prompt_for, texture_prompt, texture_prompt_regenerate, texture_subject, ModelFamily, PredictionNext,
};

#[test]
fn texture_prompt_picks_category_from_real_library_names() {
    let wolf = texture_prompt("compiled/images/Animation/Monster/Ani_Monster_Wolf_Body_01_Diffuse_S1.png");
    assert!(wolf.contains("creature"), "{wolf}");
    let axe = texture_prompt("compiled/images/Special/ItWpn_Axes_01_Diffuse_01.png");
    assert!(axe.contains("metal"), "{axe}");
    let rock = texture_prompt("compiled/images/Nature/Nat_Stone_Rock_01_Diffuse_03.png");
    assert!(rock.contains("rock"), "{rock}");
    assert!(wolf.contains("EXACT same colors"));
}

#[test]
fn data_maps_are_recognized() {
    assert!(is_data_map("compiled/images/Animation/Monster/Ani_Monster_Wolf_Body_01_Normal_S1.png"));
    assert!(is_data_map("Special/ItWpn_Axes_01_Specular_01.png"));
    assert!(!is_data_map("Special/ItWpn_Axes_01_Diffuse_01.png"));
}

#[test]
fn texture_prompt_regenerate_keeps_only_the_silhouette_constraint() {
    let wolf = texture_prompt_regenerate("compiled/images/Animation/Monster/Ani_Monster_Wolf_Body_01_Diffuse_S1.png");
    assert!(wolf.contains("creature"), "{wolf}");
    assert!(wolf.contains("silhouette"));
    assert!(wolf.contains("brand-new"));
}

#[test]
fn guess_creature_name_handles_the_real_owner_screenshot_filenames() {
    assert_eq!(guess_creature_name("Ani_Hero_Monster_Oger_Body_Diffuse_S1.png").as_deref(), Some("Oger"));
    assert_eq!(guess_creature_name("Ani_Monster_Body_Nautilus_01_Diffuse_S1.png").as_deref(), Some("Nautilus"));
    assert_eq!(guess_creature_name("Ani_Monster_Stingrat_Body_Diffuse_S1.png").as_deref(), Some("Stingrat"));
    assert_eq!(guess_creature_name("Ani_Monster_Stingrat_Claws_Diffuse_S1.png").as_deref(), Some("Stingrat"));
    assert_eq!(guess_creature_name("Ani_Monster_Stingrat_Eyes_Diffuse_S1.png").as_deref(), Some("Stingrat"));
    assert_eq!(guess_creature_name("Ani_Monster_Wolf_Body_01_Diffuse_S1.png").as_deref(), Some("Wolf"));
    assert_eq!(guess_creature_name("Ani_Monster_Wolf_Claws_01_Diffuse_S1.png").as_deref(), Some("Wolf"));
    assert_eq!(guess_creature_name("compiled/images/Special/ItWpn_Axes_01_Diffuse_01.png"), None);
}

#[test]
fn texture_subject_names_the_specific_creature_for_monster_textures() {
    let wolf = texture_prompt("compiled/images/Animation/Monster/Ani_Monster_Wolf_Body_01_Diffuse_S1.png");
    assert!(wolf.contains("Wolf-type creature"), "{wolf}");
    let oger = texture_prompt_regenerate("Ani_Hero_Monster_Oger_Body_Diffuse_S1.png");
    assert!(oger.contains("Oger-type creature"), "{oger}");
    let rock = texture_prompt("compiled/images/Nature/Nat_Stone_Rock_01_Diffuse_03.png");
    assert!(!rock.contains("-type creature"), "{rock}");
}

#[test]
fn atlas_guardrails_forbid_inventing_faces_and_merging_regions() {
    for prompt in [
        texture_prompt("Ani_Monster_Wolf_Body_01_Diffuse_S1.png"),
        texture_prompt_regenerate("Ani_Monster_Wolf_Body_01_Diffuse_S1.png"),
    ] {
        assert!(prompt.contains("texture ATLAS") || prompt.contains("ATLAS"), "{prompt}");
        assert!(prompt.to_lowercase().contains("do not invent a face"), "{prompt}");
        assert!(prompt.to_lowercase().contains("not concept art"), "{prompt}");
    }
}

#[test]
fn bearer_config_never_contains_the_bare_header_flag_style_and_carries_the_real_key() {
    let contents = bearer_config_contents("r8_realkeyvalue123");
    assert_eq!(contents, "header = \"Authorization: Bearer r8_realkeyvalue123\"\n");
}

#[test]
fn bearer_config_escapes_quotes_and_backslashes_in_the_key() {
    let contents = bearer_config_contents(r#"weird\key"with"quotes"#);
    assert_eq!(contents, "header = \"Authorization: Bearer weird\\\\key\\\"with\\\"quotes\"\n");
}

#[test]
fn every_prompt_keeps_the_layout_constraint_for_any_category() {
    for name in [
        "compiled/images/Level/Lev_Wall_01_Diffuse_01.png",
        "Ani_Hero_Head_01_Diffuse.png",
        "Special/ItWpn_Axes_01_Diffuse_01.png",
        "plain.png",
        "GUI_LoadingHint_04.png",
    ] {
        assert!(texture_prompt(name).contains("EXACT same colors"), "{name}");
    }
}

#[test]
fn full_scene_textures_are_recognized_by_name() {
    assert!(is_full_scene_texture("GUI_LoadingHint_04.png"));
    assert!(!is_full_scene_texture("Ani_Monster_Wolf_Body_01_Diffuse_S1.png"));
}

#[test]
fn texture_subject_uses_the_fallback_when_no_creature_is_named() {
    assert_eq!(texture_subject("plain_01_Diffuse.png", "rough rock"), "rough rock");
    assert_eq!(texture_subject("Nat_Stone_Rock_01.png", "x"), "natural rock, stone, bark and foliage surfaces");
    let wolf = texture_subject("Ani_Monster_Wolf_Body_01_Diffuse_S1.png", "a creature");
    assert!(wolf.contains("Wolf-type creature"), "{wolf}");
}

#[test]
fn data_maps_cover_every_kind_of_non_color_map() {
    assert!(is_data_map("a_NORMAL_01.png"));
    assert!(is_data_map("Lev_Floor_nm_01.png"));
    assert!(!is_data_map("Lev_Floor_Bump.png"));
    assert!(!is_data_map("Lev_Floor_Diffuse.png"));
}

#[test]
fn bearer_config_of_an_empty_key_still_has_the_header_shape() {
    assert_eq!(bearer_config_contents(""), "header = \"Authorization: Bearer \"\n");
}

#[test]
fn model_families_follow_the_model_name() {
    assert_eq!(model_family("philz1337x/Clarity-Upscaler"), ModelFamily::Clarity);
    assert_eq!(model_family("nightmareai/real-esrgan"), ModelFamily::Esrgan);
    assert_eq!(model_family("shanginn/SUPIR"), ModelFamily::Supir);
    assert_eq!(model_family("stability-ai/sdxl"), ModelFamily::Generic);
}

#[test]
fn negative_prompts_carry_atlas_terms_except_for_full_scenes_and_esrgan() {
    let atlas = "compiled/images/Animation/Monster/Ani_Monster_Wolf_Body_01_Diffuse_S1.png";
    let scene = "compiled/images/GUI/LoadingHint_01.png";
    assert_eq!(negative_prompt(ModelFamily::Esrgan, false, atlas), None);
    let clarity = negative_prompt(ModelFamily::Clarity, false, atlas).unwrap();
    assert!(clarity.starts_with("blurry, smooth, plastic"));
    assert!(clarity.contains("invented face"));
    let generic_new = negative_prompt(ModelFamily::Generic, true, atlas).unwrap();
    assert!(generic_new.starts_with("blurry, low detail, flat, plain, same as input"));
    let generic = negative_prompt(ModelFamily::Generic, false, scene).unwrap();
    assert_eq!(generic, "different colors, changed layout, new objects, text, watermark, frame, blurry");
    let supir = negative_prompt(ModelFamily::Supir, false, atlas).unwrap();
    assert!(supir.ends_with("humanoid silhouette, connected scene across separate regions"));
}

#[test]
fn prediction_steps_follow_the_status() {
    assert_eq!(prediction_next(Some("succeeded"), true), PredictionNext::Download);
    assert_eq!(prediction_next(Some("failed"), false), PredictionNext::Fail);
    assert_eq!(prediction_next(Some("canceled"), false), PredictionNext::Fail);
    assert_eq!(prediction_next(Some("processing"), false), PredictionNext::Poll);
    assert_eq!(prediction_next(Some("starting"), true), PredictionNext::GiveUp);
    assert_eq!(prediction_next(None, false), PredictionNext::Poll);
}

#[test]
fn prompt_for_picks_the_mode_prompt() {
    let p = "compiled/images/Special/ItWpn_Axes_01_Diffuse_01.png";
    assert_eq!(prompt_for(false, p), texture_prompt(p));
    assert_eq!(prompt_for(true, p), texture_prompt_regenerate(p));
}
