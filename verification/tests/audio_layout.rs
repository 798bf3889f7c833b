use rpf2fivem::archive::{archive_format, archive_format_of, find_rpf_files, ArchiveFormat};
use rpf2fivem::audio::{collect_game_sound_pairs, discover_audio};
use rpf2fivem::path::rel_path_posix;

fn strings(v: &[&str]) -> Vec<String> {
    v.iter().map(|s| s.to_string()).collect()
}

#[test]
fn wavepack_folders_sorted_once_each() {
    let sfx = strings(&[
        "/r/sfx/dlc_car/car.awc",
        "/r/sfx/dlc_car/car_npc.AWC",
        "/r/sfx/dlc_b/x.awc",
        "/r/sfx/readme.txt",
        "/other/sfx/dlc_z/z.awc",
    ]);
    let a = discover_audio("/r", &sfx, &[]);
    assert_eq!(a.wavepacks, strings(&["sfx/dlc_b", "sfx/dlc_car"]));
    assert!(a.physical_files.is_empty());
    assert!(a.game_sound_data.is_empty());
}

#[test]
fn game_and_sound_files_pair_by_stem() {
    let files = strings(&[
        "/r/audioconfig/car_game.dat151.rel",
        "/r/audioconfig/solo_game.dat151.rel",
        "/r/audioconfig/car_sounds.dat54.rel",
        "/r/audioconfig/readme.txt",
        "/r/audioconfig/bike/Bike_GAME.dat151.rel",
        "/r/audioconfig/bike_sounds.dat54.rel",
    ]);
    let (physical, pairs) = collect_game_sound_pairs("/r", &files);
    assert_eq!(
        physical,
        strings(&[
            "audioconfig/bike/Bike_GAME.dat151.rel",
            "audioconfig/bike_sounds.dat54.rel",
            "audioconfig/car_game.dat151.rel",
            "audioconfig/car_sounds.dat54.rel",
        ])
    );
    assert_eq!(
        pairs,
        vec![
            ("audioconfig/bike_game.dat".to_string(), "audioconfig/bike_sounds.dat".to_string()),
            ("audioconfig/car_game.dat".to_string(), "audioconfig/car_sounds.dat".to_string()),
        ]
    );
    let a = discover_audio("/r", &[], &files);
    assert_eq!(a.game_sound_data, pairs);
    assert_eq!(a.physical_files, physical);
}

#[test]
fn later_config_with_the_same_stem_wins() {
    let files = strings(&[
        "/r/audioconfig/a/car_game.dat151.rel",
        "/r/audioconfig/b/car_game.dat151.rel",
        "/r/audioconfig/car_sounds.dat54.rel",
    ]);
    let (physical, _) = collect_game_sound_pairs("/r", &files);
    assert_eq!(
        physical,
        strings(&["audioconfig/b/car_game.dat151.rel", "audioconfig/car_sounds.dat54.rel"])
    );
}

#[test]
fn package_formats() {
    assert_eq!(archive_format("mod.ZIP"), Ok(ArchiveFormat::Zip));
    assert_eq!(archive_format("dir/x.7z"), Ok(ArchiveFormat::SevenZip));
    assert_eq!(archive_format("x.rar"), Ok(ArchiveFormat::Rar));
    assert_eq!(archive_format("x.tar"), Err("tar".to_string()));
    assert_eq!(archive_format("noext"), Err(String::new()));
    assert_eq!(archive_format_of("zip"), Ok(ArchiveFormat::Zip));
    assert_eq!(archive_format_of("ZIP"), Err("ZIP".to_string()));
}

#[test]
fn rpf_files_among_found_files() {
    let found = strings(&["a/x.rpf", "b/y.RPF", "c/z.rpf.bak", "d/w.rpf", "e/rpf"]);
    assert_eq!(find_rpf_files(&found), strings(&["a/x.rpf", "d/w.rpf"]));
}

#[test]
fn relative_posix_paths() {
    assert_eq!(rel_path_posix("/r", "/r/a/b.txt"), Some("a/b.txt".to_string()));
    assert_eq!(rel_path_posix("/r/", "/r/a//b"), Some("a/b".to_string()));
    assert_eq!(rel_path_posix("/r", "/s/a"), None);
    assert_eq!(rel_path_posix("/r", "/r"), Some(String::new()));
    assert_eq!(rel_path_posix("a/b", "a/b/./c"), Some("c".to_string()));
}
