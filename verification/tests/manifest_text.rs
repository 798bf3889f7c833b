use rpf2fivem::manifest::{combined, directive_for, quote_lua, single, AudioManifest, DataFile};

fn no_audio() -> AudioManifest {
    AudioManifest { wavepacks: vec![], physical_files: vec![], game_sound_data: vec![] }
}

#[test]
fn infers_world_of_variety_directives() {
    assert_eq!(directive_for("data/vehicles/main.meta"), Some("VEHICLE_METADATA_FILE"));
    assert_eq!(directive_for("data/peds/main.meta"), Some("PED_METADATA_FILE"));
    assert_eq!(directive_for("data/clipsets/main.ymt"), Some("CLIP_SETS_FILE"));
    assert_eq!(directive_for("data/popcycle.dat"), Some("POPSCHED_FILE"));
}

#[test]
fn rejects_unknown_or_unsupported_files() {
    assert_eq!(directive_for("data/scenario/region/davis.ymt"), None);
    assert_eq!(directive_for("data/dispatch.meta"), None);
    assert_eq!(directive_for("data/peds.ymt"), None);
    assert_eq!(directive_for("data/vehicles/arbitrary.xml"), None);
    assert_eq!(directive_for("data/unknown.meta"), None);
}

#[test]
fn directive_ignores_case_and_backslashes() {
    assert_eq!(directive_for("DATA\\Vehicles\\Main.META"), Some("VEHICLE_METADATA_FILE"));
    assert_eq!(directive_for("data\\handling\\x.meta"), Some("HANDLING_FILE"));
    assert_eq!(directive_for("Data/CarCols.Meta"), Some("CARCOLS_FILE"));
}

#[test]
fn directive_by_folder_and_by_name() {
    assert_eq!(directive_for("handling.meta"), Some("HANDLING_FILE"));
    assert_eq!(directive_for("data/vehiclelayouts/vehicles/x.meta"), Some("VEHICLE_LAYOUTS_FILE"));
    assert_eq!(directive_for("data/vehicles.meta"), Some("VEHICLE_METADATA_FILE"));
    assert_eq!(directive_for("data/peds.meta"), Some("PED_METADATA_FILE"));
    assert_eq!(directive_for("data/clipsets/x.xml"), Some("CLIP_SETS_FILE"));
    assert_eq!(directive_for("data/carvariations.meta"), Some("VEHICLE_VARIATION_FILE"));
    assert_eq!(directive_for("data/dlctext.meta"), Some("DLCTEXT_FILE"));
    assert_eq!(directive_for("data/contentunlocks.meta"), Some("CARCONTENTUNLOCKS_FILE"));
    assert_eq!(directive_for("data/vehiclemodelsets.meta"), Some("AMBIENT_VEHICLE_MODEL_SET_FILE"));
    assert_eq!(directive_for("data/ambientpedmodelsets.meta"), Some("AMBIENT_PED_MODEL_SET_FILE"));
    assert_eq!(directive_for("data/propsets.meta"), Some("AMBIENT_PROP_MODEL_SET_FILE"));
    assert_eq!(directive_for("data/conditionalanims.meta"), Some("CONDITIONAL_ANIMS_FILE"));
    assert_eq!(directive_for("data/loadouts.meta"), Some("LOADOUTS_FILE"));
    assert_eq!(directive_for("data/taskdata.meta"), Some("PED_TASK_DATA_FILE"));
    assert_eq!(directive_for("data/pedcomponentsets.meta"), Some("PED_COMPONENT_SETS_FILE"));
    assert_eq!(directive_for("data/pedperception.meta"), Some("PED_PERCEPTION_FILE"));
    assert_eq!(directive_for("data/pedpersonality.ymt"), Some("PED_PERSONALITY_FILE"));
    assert_eq!(directive_for("data/popgroups.ymt"), Some("DLC_POP_GROUPS"));
    assert_eq!(directive_for("data/zonebind.ymt"), Some("ZONEBIND_FILE"));
    assert_eq!(directive_for("data/noextension"), None);
    assert_eq!(directive_for(""), None);
}

#[test]
fn quote_lua_picks_quotes() {
    assert_eq!(quote_lua("abc"), "'abc'");
    assert_eq!(quote_lua(""), "''");
    assert_eq!(quote_lua("it's"), "\"it's\"");
    assert_eq!(quote_lua("a'b\"c"), "'a\\'b\"c'");
    assert_eq!(quote_lua("say \"hi\""), "'say \"hi\"'");
}

#[test]
fn bare_manifest_has_only_the_header() {
    let m = single(&[], &no_audio(), None, None);
    assert_eq!(m, "fx_version 'cerulean'\ngame 'gta5'\n");
}

#[test]
fn manifest_with_description_and_url() {
    let m = single(&[], &no_audio(), Some("Car"), Some("https://x"));
    assert_eq!(m, "fx_version 'cerulean'\ngame 'gta5'\n\ndescription 'Car'\nurl 'https://x'\n");
}

#[test]
fn manifest_lists_data_files_with_their_mounters() {
    let files = vec![
        DataFile { path: "data/vehicles/main.meta".to_string(), directive: "VEHICLE_METADATA_FILE" },
        DataFile { path: "data/carcols.meta".to_string(), directive: "CARCOLS_FILE" },
        DataFile { path: "data/popcycle.dat".to_string(), directive: "POPSCHED_FILE" },
    ];
    let m = single(&files, &no_audio(), None, None);
    let expected = "fx_version 'cerulean'\ngame 'gta5'\n\
\nfiles {\n    'data/**/*.dat',\n    'data/**/*.meta',\n}\n\
\ndata_file 'VEHICLE_METADATA_FILE' 'data/vehicles/main.meta'\
\ndata_file 'CARCOLS_FILE' 'data/carcols.meta'\
\ndata_file 'POPSCHED_FILE' 'data/popcycle.dat'\n";
    assert_eq!(m, expected);
}

#[test]
fn manifest_with_audio() {
    let audio = AudioManifest {
        wavepacks: vec!["sfx/dlc_car".to_string()],
        physical_files: vec![
            "audioconfig/car_game.dat151.rel".to_string(),
            "audioconfig/car_sounds.dat54.rel".to_string(),
        ],
        game_sound_data: vec![(
            "audioconfig/car_game.dat".to_string(),
            "audioconfig/car_sounds.dat".to_string(),
        )],
    };
    let m = combined(&[], &audio, None, None);
    let expected = "fx_version 'cerulean'\ngame 'gta5'\n\
\nfiles {\n    'sfx/**/*.awc',\n    'audioconfig/car_game.dat151.rel',\n    'audioconfig/car_sounds.dat54.rel',\n}\n\
\ndata_file 'AUDIO_GAMEDATA' 'audioconfig/car_game.dat'\
\ndata_file 'AUDIO_SOUNDDATA' 'audioconfig/car_sounds.dat'\
\ndata_file 'AUDIO_WAVEPACK' 'sfx/dlc_car'\n";
    assert_eq!(m, expected);
    assert!(!audio.is_empty());
}

#[test]
fn audio_with_only_physical_files_counts_as_empty() {
    let audio = AudioManifest {
        wavepacks: vec![],
        physical_files: vec!["audioconfig/x_game.dat151.rel".to_string()],
        game_sound_data: vec![],
    };
    assert!(audio.is_empty());
    let m = single(&[], &audio, None, None);
    assert_eq!(m, "fx_version 'cerulean'\ngame 'gta5'\n");
}
