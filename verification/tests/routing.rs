use rpf2fivem::manifest::directive_for;
use rpf2fivem::convert::{
    audio_config_basename, audio_stem_from_game, audio_stem_from_sound, confirms_overwrite,
    fix_resource_header, is_audio_config_file, is_vehicle_meta, manifest_url, normalize_sfx_dest,
    output_action, plan_loose_files, rename_step, rename_target, resource_layout, route_file,
    streaming_candidate, wavepack_rename, ConvertOptions, FileRoute, OutputAction, RenameStep,
};

fn stream(r: &FileRoute) -> Option<(String, bool)> {
    match r {
        FileRoute::Stream { rel, fix_header } => Some((rel.clone(), *fix_header)),
        _ => None,
    }
}

fn data(r: &FileRoute) -> Option<(String, String, &'static str)> {
    match r {
        FileRoute::Data { rel, manifest_path, directive } => {
            Some((rel.clone(), manifest_path.clone(), *directive))
        }
        _ => None,
    }
}

fn omitted(r: &FileRoute) -> bool {
    matches!(r, FileRoute::Omitted)
}

#[test]
fn streamed_assets_go_to_their_folders() {
    let r = route_file("vehicles/car.yft", "x/car.yft", "car", false, false);
    assert_eq!(stream(&r), Some(("car.yft".to_string(), true)));
    let r = route_file("vehicles/car.ytd", "x/car.ytd", "car", false, false);
    assert_eq!(stream(&r), Some(("car.ytd".to_string(), true)));
    let r = route_file("x/prop.ydr", "x/prop.ydr", "car", false, false);
    assert_eq!(stream(&r), Some(("prop.ydr".to_string(), false)));
    let r = route_file("maps/foo.YMAP", "maps/foo.YMAP", "car", false, false);
    assert_eq!(stream(&r), Some(("maps/foo.YMAP".to_string(), false)));
    let r = route_file("a/b.ytyp", "a/b.ytyp", "car", false, true);
    assert_eq!(stream(&r), Some(("maps/b.ytyp".to_string(), false)));
    let r = route_file("a/col.ybn", "a/col.ybn", "car", false, true);
    assert_eq!(stream(&r), Some(("maps/col.ybn".to_string(), false)));
    let r = route_file("x/nav.ynv", "x/nav.ynv", "car", false, false);
    assert_eq!(stream(&r), Some(("paths/nav.ynv".to_string(), false)));
    let r = route_file("x/nodes.ynd", "x/nodes.ynd", "car", false, false);
    assert_eq!(stream(&r), Some(("paths/nodes.ynd".to_string(), false)));
    let r = route_file("x/anim.ycd", "x/anim.ycd", "car", false, false);
    assert_eq!(stream(&r), Some(("anim.ycd".to_string(), false)));
    let r = route_file("x/frag.ydd", "x/frag.ydd", "car", false, false);
    assert_eq!(stream(&r), Some(("frag.ydd".to_string(), false)));
}

#[test]
fn unknown_formats_are_omitted() {
    assert!(omitted(&route_file("x/thing.ipl", "x/thing.ipl", "car", false, false)));
    assert!(omitted(&route_file("readme.txt", "readme.txt", "car", false, true)));
    assert!(omitted(&route_file("data/dispatch.meta", "data/dispatch.meta", "car", false, false)));
    assert!(omitted(&route_file(
        "data/scenario/region/davis.ymt",
        "data/scenario/region/davis.ymt",
        "car",
        false,
        false
    )));
}

#[test]
fn wavepacks_go_to_sfx() {
    match route_file("audio/sfx/dlc_car/car.awc", "audio/sfx/dlc_car/car.awc", "car", false, false) {
        FileRoute::Sfx { rel } => assert_eq!(rel, "dlc_car/car.awc"),
        _ => panic!("expected a wavepack"),
    }
}

#[test]
fn audio_configs_go_to_audioconfig() {
    match route_file("audioconfig/car_game.dat151.rel", "a/car_game.dat151.rel", "car", false, false) {
        FileRoute::AudioConfig { file_name } => assert_eq!(file_name, "car_game.dat151.rel"),
        _ => panic!("expected an audio config"),
    }
    match route_file("car_sounds.dat", "car_sounds.dat", "car", false, true) {
        FileRoute::AudioConfig { file_name } => assert_eq!(file_name, "car_sounds.dat"),
        _ => panic!("expected an audio config"),
    }
    match route_file("x/car_game.dat151.nametable", "x/car_game.dat151.nametable", "car", false, false) {
        FileRoute::AudioConfig { file_name } => assert_eq!(file_name, "car_game.dat151.nametable"),
        _ => panic!("expected an audio config"),
    }
    // Loose files: only .rel and .dat configs are taken.
    assert!(omitted(&route_file(
        "x/car_game.dat151.nametable",
        "x/car_game.dat151.nametable",
        "car",
        false,
        true
    )));
}

#[test]
fn semantic_data_paths_stay_apart() {
    let v = route_file("main.meta", "mod/data/vehicles/main.meta", "car", false, false);
    assert_eq!(
        data(&v),
        Some((
            "vehicles/main.meta".to_string(),
            "data/vehicles/main.meta".to_string(),
            "VEHICLE_METADATA_FILE"
        ))
    );
    let p = route_file("main.meta", "mod/data/peds/main.meta", "car", false, false);
    assert_eq!(
        data(&p),
        Some(("peds/main.meta".to_string(), "data/peds/main.meta".to_string(), "PED_METADATA_FILE"))
    );
    let c = route_file("main.meta", "mod/data/vehicles/main.meta", "car", true, false);
    assert_eq!(
        data(&c),
        Some((
            "vehicles/main.meta".to_string(),
            "data/car/vehicles/main.meta".to_string(),
            "VEHICLE_METADATA_FILE"
        ))
    );
}

#[test]
fn data_files_outside_a_data_folder_keep_their_name() {
    let r = route_file("carcols.meta", "mod/stuff/carcols.meta", "car", false, false);
    assert_eq!(
        data(&r),
        Some(("carcols.meta".to_string(), "data/carcols.meta".to_string(), "CARCOLS_FILE"))
    );
    let r = route_file("handling.meta", "data/../handling.meta", "car", false, false);
    assert_eq!(
        data(&r),
        Some(("handling.meta".to_string(), "data/handling.meta".to_string(), "HANDLING_FILE"))
    );
}

#[test]
fn loose_files_keep_the_shallowest_of_each_destination() {
    let files = vec![
        "/x/a/data/vehicles/main.meta".to_string(),
        "/x/data/vehicles/main.meta".to_string(),
        "/x/car.yft".to_string(),
        "/x/b/car.yft".to_string(),
        "/x/readme.txt".to_string(),
    ];
    let plan = plan_loose_files("/x", &files, "car", false);
    assert_eq!(plan.len(), 2);
    assert_eq!(plan[0].0, 1);
    assert_eq!(
        data(&plan[0].1),
        Some((
            "vehicles/main.meta".to_string(),
            "data/vehicles/main.meta".to_string(),
            "VEHICLE_METADATA_FILE"
        ))
    );
    assert_eq!(plan[1].0, 2);
    assert_eq!(stream(&plan[1].1), Some(("car.yft".to_string(), true)));
}

#[test]
fn loose_files_tie_goes_to_the_first() {
    let files = vec!["/x/a/car.ytd".to_string(), "/x/b/CAR.ytd".to_string()];
    let plan = plan_loose_files("/x", &files, "car", false);
    assert_eq!(plan.len(), 1);
    assert_eq!(plan[0].0, 0);
}

#[test]
fn streaming_candidates() {
    assert_eq!(
        streaming_candidate("stream/car.ytd", false),
        Some(("car".to_string(), "car.yft".to_string()))
    );
    assert_eq!(
        streaming_candidate("car.yft", true),
        Some(("car".to_string(), "car.ytd".to_string()))
    );
    assert_eq!(streaming_candidate("car+hi.ytd", false), None);
    assert_eq!(streaming_candidate("car_hi.yft", true), None);
    assert_eq!(
        streaming_candidate("car_hi.yft", false),
        Some(("car_hi".to_string(), "car_hi.ytd".to_string()))
    );
    assert_eq!(streaming_candidate("car.ydr", false), None);
}

#[test]
fn output_folder_decisions() {
    assert_eq!(output_action(false, false, false, false), OutputAction::Proceed);
    assert_eq!(output_action(true, false, false, false), OutputAction::Proceed);
    assert_eq!(output_action(true, true, true, false), OutputAction::Remove);
    assert_eq!(output_action(true, true, false, true), OutputAction::Ask);
    assert_eq!(output_action(true, true, false, false), OutputAction::Refuse);
}

#[test]
fn overwrite_answers() {
    assert!(confirms_overwrite("y"));
    assert!(confirms_overwrite("  Y \n"));
    assert!(confirms_overwrite("YES"));
    assert!(confirms_overwrite("\tyes"));
    assert!(!confirms_overwrite("no"));
    assert!(!confirms_overwrite(""));
    assert!(!confirms_overwrite("ye"));
    assert!(!confirms_overwrite("y e s"));
}

#[test]
fn sfx_destinations() {
    assert_eq!(normalize_sfx_dest("audio/sfx/dlc_car/car.awc", "car"), "dlc_car/car.awc");
    assert_eq!(normalize_sfx_dest("audio\\sfx\\dlc_car\\car.awc", "car"), "dlc_car/car.awc");
    assert_eq!(normalize_sfx_dest("x/sfx//dlc_a/b.awc", "car"), "dlc_a/b.awc");
    assert_eq!(normalize_sfx_dest("AUDIO/SFX/x/y.awc", "car"), "x/y.awc");
    assert_eq!(normalize_sfx_dest("car_npc.awc", "car"), "dlc_car/car_npc.awc");
    assert_eq!(normalize_sfx_dest("packs/engine.awc", "car"), "dlc_engine/engine.awc");
}

#[test]
fn audio_config_names() {
    assert_eq!(audio_config_basename("a/b/c_game.dat"), "c_game.dat");
    assert_eq!(audio_config_basename(""), "audio.rel");
    assert!(is_audio_config_file("x/Car_Game.dat"));
    assert!(is_audio_config_file("car.dat151.rel"));
    assert!(is_audio_config_file("x_sounds.nametable"));
    assert!(!is_audio_config_file("foo.rel"));
    assert!(!is_audio_config_file("car_game.meta"));
    assert_eq!(audio_stem_from_game("car_game.dat151.rel"), Some("car".to_string()));
    assert_eq!(audio_stem_from_sound("car_sounds.dat54.rel"), Some("car".to_string()));
    assert_eq!(audio_stem_from_game("car.rel"), None);
    assert_eq!(audio_stem_from_sound("car_game.dat"), None);
}

#[test]
fn resource_header_byte_is_fixed() {
    let mut d = vec![0x52u8, 0x53, 0x43, 0x00, 5];
    fix_resource_header(&mut d);
    assert_eq!(d, vec![0x52u8, 0x53, 0x43, 0x37, 5]);
    let mut short = vec![1u8, 2, 3];
    fix_resource_header(&mut short);
    assert_eq!(short, vec![1u8, 2, 3]);
}

#[test]
fn vehicle_meta_names() {
    assert!(is_vehicle_meta("Data/HANDLING.meta"));
    assert!(is_vehicle_meta("carvariations.meta"));
    assert!(!is_vehicle_meta("peds.meta"));
}

#[test]
fn renaming_after_conversion() {
    assert_eq!(rename_target(false, false, Some("tgrcara"), "mycar"), Some("tgrcara".to_string()));
    assert_eq!(rename_target(true, false, Some("tgrcara"), "mycar"), None);
    assert_eq!(rename_target(false, true, Some("tgrcara"), "mycar"), None);
    assert_eq!(rename_target(false, false, Some("mycar"), "mycar"), None);
    assert_eq!(rename_target(false, false, None, "mycar"), None);
    assert_eq!(
        wavepack_rename("mycar", "tgrcara"),
        Some(("dlc_mycar".to_string(), "dlc_tgrcara".to_string()))
    );
    assert_eq!(wavepack_rename("car", "car"), None);
    assert_eq!(rename_step(false, false), RenameStep::Rename);
    assert_eq!(rename_step(true, true), RenameStep::ReplaceExisting);
    assert_eq!(rename_step(true, false), RenameStep::KeepName);
}

#[test]
fn resource_folders() {
    let opts = ConvertOptions {
        input: "mod.zip",
        resource_name: "car",
        description: None,
        output_dir: "out",
        combined: false,
        combined_name: "all",
        overwrite: false,
    };
    let l = resource_layout(&opts);
    assert_eq!(l.resource_dir, "out/car");
    assert_eq!(l.stream_dir, "out/car/stream");
    assert_eq!(l.data_dir, "out/car/data");
    assert_eq!(l.sfx_dir, "out/car/sfx");
    assert_eq!(l.audioconfig_dir, "out/car/audioconfig");
    assert_eq!(manifest_url(&opts), None);

    let opts = ConvertOptions {
        input: "https://example.com/mod.zip",
        resource_name: "car",
        description: None,
        output_dir: "out/",
        combined: true,
        combined_name: "all",
        overwrite: true,
    };
    let l = resource_layout(&opts);
    assert_eq!(l.resource_dir, "out/all");
    assert_eq!(l.stream_dir, "out/all/stream/car");
    assert_eq!(l.audioconfig_dir, "out/all/audioconfig/car");
    assert_eq!(manifest_url(&opts), Some("https://example.com/mod.zip"));
}

#[test]
fn vehicle_data_files_have_mounters() {
    for name in [
        "x/Handling.meta",
        "VEHICLES.META",
        "a\\b/vehiclelayouts.meta",
        "carcols.meta",
        "data/carvariations.meta",
        "dlctext.meta",
        "contentunlocks.meta",
        "vehiclemodelsets.meta",
    ] {
        assert!(is_vehicle_meta(name), "{name}");
        assert!(directive_for(name).is_some(), "{name}");
    }
    // The Kelvin sign lower-cases to an ASCII `k` only under Unicode rules.
    let kelvin = "contentunloc\u{212A}s.meta";
    assert!(is_vehicle_meta(kelvin));
    assert_eq!(directive_for(kelvin), None);
}
