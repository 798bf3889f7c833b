//! Audio discovery: the wavepack folders under `sfx/` and the matched game
//! and sound configuration files under `audioconfig/`.
use vstd::prelude::*;
use crate::convert::{audio_stem_from_game, audio_stem_from_sound, is_audio_config_file, is_audio_config_spec, stem_before};
use crate::manifest::AudioManifest;
use crate::path::{
    comp_views, components, components_exec, file_name, file_name_exec, path_extension,
    path_extension_exec, rel_components, rel_components_exec, rel_path_posix, rel_path_spec,
};
use crate::sorted::{insert_sorted, lemma_sorted_elements, sorted_elements, sorted_strict, views};
use crate::text::{ascii_lower, chars_of, eq_chars, eq_str, lower_ascii, push_all, push_str, string_of};

verus! {

pub open spec fn string_views(v: Seq<String>) -> Seq<Seq<char>> {
    v.map_values(|s: String| s@)
}

/// The folder of a `.awc` file (extension compared ignoring ASCII case),
/// relative to the resource root, when the file has a parent under the root.
pub open spec fn wavepack_dir(root: Seq<char>, file: Seq<char>) -> Option<Seq<char>> {
    wavepack_dir_from(components(root), file)
}

/// The wavepack folders among the files found under `sfx/`.
pub open spec fn wavepack_set(root: Seq<char>, files: Seq<Seq<char>>) -> Set<Seq<char>> {
    Set::new(
        |d: Seq<char>| exists|i: int| 0 <= i < files.len() && wavepack_dir(root, #[trigger] files[i]) == Some(d),
    )
}

fn wavepack_dir_exec(rc: &[Vec<char>], file: &str) -> (r: Option<Vec<char>>)
    ensures
        r matches Some(d) ==> wavepack_dir_from(comp_views(rc@), file@) == Some(d@),
        r is None ==> wavepack_dir_from(comp_views(rc@), file@) is None,
{
    let f = chars_of(file);
    match path_extension_exec(&f) {
        Some(e) => {
            let l = lower_ascii(&e);
            if !eq_str(&l, "awc") {
                return None;
            }
            let mut c = components_exec(&f);
            if c.len() == 0 {
                return None;
            }
            let last = c.len() - 1;
            if c[last].len() == 1 && c[last][0] == '/' {
                assert(comp_views(c@).last() =~= seq!['/']);
                return None;
            }
            let ghost cv = comp_views(c@);
            c.pop();
            assert(comp_views(c@) =~= cv.drop_last());
            rel_components_exec(rc, &c)
        },
        None => None,
    }
}

/// The folder of a `.awc` file relative to a root given by its components:
/// the file's parent (its components but the last) with the root's removed.
pub open spec fn wavepack_dir_from(rc: Seq<Seq<char>>, file: Seq<char>) -> Option<Seq<char>> {
    match path_extension(file) {
        Some(e) => if ascii_lower(e) == "awc"@ {
            let c = components(file);
            if c.len() == 0 || c.last() == seq!['/'] {
                None
            } else {
                rel_components(rc, c.drop_last())
            }
        } else {
            None
        },
        None => None,
    }
}

/// The wavepack folders (`sfx/...` paths relative to the resource root), in
/// `str` order, each once.
fn collect_wavepack_dirs(resource_root: &str, files: &[String]) -> (r: Vec<Vec<char>>)
    ensures
        views(r@) == sorted_elements(wavepack_set(resource_root@, string_views(files@))),
        sorted_strict(views(r@)),
        views(r@).to_set() == wavepack_set(resource_root@, string_views(files@)),
{
    let rc = components_exec(&chars_of(resource_root));
    let ghost fv = string_views(files@);
    let mut out: Vec<Vec<char>> = Vec::new();
    let mut i: usize = 0;
    assert(views(out@).to_set() =~= wavepack_set(resource_root@, fv.take(0)));
    while i < files.len()
        invariant
            i <= files.len(),
            fv == string_views(files@),
            comp_views(rc@) == components(resource_root@),
            sorted_strict(views(out@)),
            views(out@).to_set() == wavepack_set(resource_root@, fv.take(i as int)),
        decreases files.len() - i,
    {
        let ghost before = wavepack_set(resource_root@, fv.take(i as int));
        let ghost after = wavepack_set(resource_root@, fv.take(i + 1));
        let ghost f0 = fv.take(i as int);
        let ghost f1 = fv.take(i + 1);
        assert(f1[i as int] == files@[i as int]@);
        let d = wavepack_dir_exec(&rc, files[i].as_str());
        match d {
            Some(d) => {
                let ghost dv = d@;
                insert_sorted(&mut out, d);
                assert(after =~= before.insert(dv)) by {
                    assert forall|x: Seq<char>| after.contains(x) implies before.insert(dv).contains(x) by {
                        let k = choose|k: int| 0 <= k < i + 1 && wavepack_dir(resource_root@, #[trigger] f1[k]) == Some(x);
                        if k < i {
                            assert(f0[k] == f1[k]);
                        }
                    }
                    assert forall|x: Seq<char>| before.insert(dv).contains(x) implies after.contains(x) by {
                        if x != dv {
                            let k = choose|k: int| 0 <= k < i && wavepack_dir(resource_root@, #[trigger] f0[k]) == Some(x);
                            assert(f0[k] == f1[k]);
                        }
                    }
                }
            },
            None => {
                assert(after =~= before) by {
                    assert forall|x: Seq<char>| after.contains(x) implies before.contains(x) by {
                        let k = choose|k: int| 0 <= k < i + 1 && wavepack_dir(resource_root@, #[trigger] f1[k]) == Some(x);
                        if k < i {
                            assert(f0[k] == f1[k]);
                        }
                    }
                    assert forall|x: Seq<char>| before.contains(x) implies after.contains(x) by {
                        let k = choose|k: int| 0 <= k < i && wavepack_dir(resource_root@, #[trigger] f0[k]) == Some(x);
                        assert(f0[k] == f1[k]);
                    }
                }
            },
        }
        i = i + 1;
    }
    assert(fv.take(i as int) =~= fv);
    proof {
        lemma_sorted_elements(views(out@), wavepack_set(resource_root@, fv));
    }
    out
}


/// What an audio config file found under `audioconfig/` contributes: whether
/// it is game data (else sound data), its stem, and its path relative to the
/// resource root.
pub open spec fn config_info(root: Seq<char>, file: Seq<char>) -> Option<(bool, Seq<char>, Seq<char>)> {
    let name = match file_name(file) {
        Some(n) => n,
        None => seq![],
    };
    if !is_audio_config_spec(name) {
        None
    } else {
        match rel_path_spec(root, file) {
            None => None,
            Some(rel) => {
                let lower = ascii_lower(name);
                match stem_before(lower, "_game."@) {
                    Some(st) => Some((true, st, rel)),
                    None => match stem_before(lower, "_sounds."@) {
                        Some(st) => Some((false, st, rel)),
                        None => None,
                    },
                }
            },
        }
    }
}

/// The name a config file is mounted under: `audioconfig/<stem>_game.dat` or
/// `audioconfig/<stem>_sounds.dat`.
pub open spec fn config_alias(stem: Seq<char>, game: bool) -> Seq<char> {
    "audioconfig/"@ + stem + if game {
        "_game.dat"@
    } else {
        "_sounds.dat"@
    }
}

/// Stem to (physical path, mounted name) of the game (or sound) config files;
/// a later file with the same stem replaces an earlier one.
pub open spec fn config_map(root: Seq<char>, files: Seq<Seq<char>>, game: bool) -> Map<Seq<char>, (Seq<char>, Seq<char>)>
    decreases files.len(),
{
    if files.len() == 0 {
        Map::empty()
    } else {
        let m = config_map(root, files.drop_last(), game);
        match config_info(root, files.last()) {
            Some((g, st, rel)) => if g == game {
                m.insert(st, (rel, config_alias(st, game)))
            } else {
                m
            },
            None => m,
        }
    }
}

/// Every config file is mounted under the name of its own stem.
proof fn lemma_config_map_alias(root: Seq<char>, files: Seq<Seq<char>>, game: bool, st: Seq<char>)
    requires
        config_map(root, files, game).dom().contains(st),
    ensures
        config_map(root, files, game)[st].1 == config_alias(st, game),
    decreases files.len(),
{
    if files.len() > 0 {
        let m = config_map(root, files.drop_last(), game);
        match config_info(root, files.last()) {
            Some((g, st2, rel)) => {
                if g == game && st2 != st {
                    lemma_config_map_alias(root, files.drop_last(), game, st);
                } else if g != game {
                    lemma_config_map_alias(root, files.drop_last(), game, st);
                }
            },
            None => {
                lemma_config_map_alias(root, files.drop_last(), game, st);
            },
        }
    }
}

/// The stems that have both a game and a sound config file, in `str` order.
pub open spec fn matched_stems(root: Seq<char>, files: Seq<Seq<char>>) -> Seq<Seq<char>> {
    sorted_elements(config_map(root, files, true).dom().intersect(config_map(root, files, false).dom()))
}

/// For each matched stem, the physical game file then the physical sound file.
pub open spec fn physical_of(
    stems: Seq<Seq<char>>,
    g: Map<Seq<char>, (Seq<char>, Seq<char>)>,
    s: Map<Seq<char>, (Seq<char>, Seq<char>)>,
) -> Seq<Seq<char>>
    decreases stems.len(),
{
    if stems.len() == 0 {
        seq![]
    } else {
        physical_of(stems.drop_last(), g, s) + seq![g[stems.last()].0, s[stems.last()].0]
    }
}

/// For each matched stem, the mounted game and sound names.
pub open spec fn pairs_of(
    stems: Seq<Seq<char>>,
    g: Map<Seq<char>, (Seq<char>, Seq<char>)>,
    s: Map<Seq<char>, (Seq<char>, Seq<char>)>,
) -> Seq<(Seq<char>, Seq<char>)> {
    stems.map_values(|st: Seq<char>| (g[st].1, s[st].1))
}

struct ConfigEntry {
    stem: Vec<char>,
    phys: Vec<char>,
    alias: Vec<char>,
}

spec fn entries_map(v: Seq<ConfigEntry>) -> Map<Seq<char>, (Seq<char>, Seq<char>)>
    decreases v.len(),
{
    if v.len() == 0 {
        Map::empty()
    } else {
        entries_map(v.drop_last()).insert(v.last().stem@, (v.last().phys@, v.last().alias@))
    }
}

proof fn lemma_entries_suffix(v: Seq<ConfigEntry>, j: int, k: Seq<char>)
    requires
        0 <= j <= v.len(),
        forall|m: int| j <= m < v.len() ==> (#[trigger] v[m]).stem@ != k,
    ensures
        entries_map(v).dom().contains(k) == entries_map(v.take(j)).dom().contains(k),
        entries_map(v).dom().contains(k) ==> entries_map(v)[k] == entries_map(v.take(j))[k],
    decreases v.len(),
{
    if v.len() == j {
        assert(v.take(j) =~= v);
    } else {
        let d = v.drop_last();
        assert(d.take(j) =~= v.take(j));
        assert forall|m: int| j <= m < d.len() implies (#[trigger] d[m]).stem@ != k by {
            assert(d[m] == v[m]);
        }
        lemma_entries_suffix(d, j, k);
        assert(v.last() == v[v.len() - 1]);
    }
}

proof fn lemma_entries_dom(v: Seq<ConfigEntry>)
    ensures
        entries_map(v).dom() == Set::new(|k: Seq<char>| exists|m: int| 0 <= m < v.len() && (#[trigger] v[m]).stem@ == k),
    decreases v.len(),
{
    if v.len() > 0 {
        let d = v.drop_last();
        lemma_entries_dom(d);
        assert(entries_map(v).dom() =~= Set::new(|k: Seq<char>| exists|m: int| 0 <= m < v.len() && (#[trigger] v[m]).stem@ == k)) by {
            assert forall|k: Seq<char>| entries_map(v).dom().contains(k) implies exists|m: int| 0 <= m < v.len() && (#[trigger] v[m]).stem@ == k by {
                if k == v.last().stem@ {
                    assert(v[v.len() - 1].stem@ == k);
                } else {
                    let m = choose|m: int| 0 <= m < d.len() && (#[trigger] d[m]).stem@ == k;
                    assert(v[m] == d[m]);
                }
            }
            assert forall|k: Seq<char>| (exists|m: int| 0 <= m < v.len() && (#[trigger] v[m]).stem@ == k) implies entries_map(v).dom().contains(k) by {
                let m = choose|m: int| 0 <= m < v.len() && (#[trigger] v[m]).stem@ == k;
                if m < v.len() - 1 {
                    assert(d[m] == v[m]);
                }
            }
        }
    } else {
        assert(entries_map(v).dom() =~= Set::new(|k: Seq<char>| exists|m: int| 0 <= m < v.len() && (#[trigger] v[m]).stem@ == k));
    }
}

/// The last entry with stem `k`.
fn lookup(v: &Vec<ConfigEntry>, k: &[char]) -> (r: Option<usize>)
    ensures
        r matches Some(i) ==> i < v@.len() && entries_map(v@).dom().contains(k@) && entries_map(v@)[k@] == (v@[i as int].phys@, v@[i as int].alias@),
        r is None ==> !entries_map(v@).dom().contains(k@),
{
    let mut j = v.len();
    while j > 0
        invariant
            j <= v@.len(),
            forall|m: int| j <= m < v@.len() ==> (#[trigger] v@[m]).stem@ != k@,
        decreases j,
    {
        if eq_chars(&v[j - 1].stem, k) {
            proof {
                lemma_entries_suffix(v@, j as int, k@);
                assert(v@.take(j as int).drop_last() =~= v@.take(j - 1));
                assert(v@.take(j as int).last() == v@[j - 1]);
            }
            return Some(j - 1);
        }
        j = j - 1;
    }
    proof {
        lemma_entries_suffix(v@, 0, k@);
        assert(v@.take(0) =~= Seq::<ConfigEntry>::empty());
    }
    None
}

fn copy_chars(v: &[char]) -> (r: Vec<char>)
    ensures
        r@ == v@,
{
    let r = crate::text::slice_chars(v, 0, v.len());
    assert(r@ =~= v@);
    r
}

/// The config file's contribution (see `config_info`).
fn config_info_exec(resource_root: &str, file: &str) -> (r: Option<(bool, Vec<char>, Vec<char>)>)
    ensures
        r matches Some(t) ==> config_info(resource_root@, file@) == Some((t.0, t.1@, t.2@)),
        r is None ==> config_info(resource_root@, file@) is None,
{
    let f = chars_of(file);
    let name = match file_name_exec(&f) {
        Some(n) => n,
        None => Vec::new(),
    };
    assert(name@ =~= match file_name(file@) {
        Some(n) => n,
        None => seq![],
    });
    let name_s = string_of(&name);
    if !is_audio_config_file(name_s.as_str()) {
        return None;
    }
    let rel = match rel_path_posix(resource_root, file) {
        Some(r) => chars_of(r.as_str()),
        None => return None,
    };
    let lower = string_of(&lower_ascii(&name));
    match audio_stem_from_game(lower.as_str()) {
        Some(st) => Some((true, chars_of(st.as_str()), rel)),
        None => match audio_stem_from_sound(lower.as_str()) {
            Some(st) => Some((false, chars_of(st.as_str()), rel)),
            None => None,
        },
    }
}

fn alias_exec(stem: &[char], game: bool) -> (r: Vec<char>)
    ensures
        r@ == config_alias(stem@, game),
{
    let mut a = chars_of("audioconfig/");
    push_all(&mut a, stem);
    if game {
        push_str(&mut a, "_game.dat");
    } else {
        push_str(&mut a, "_sounds.dat");
    }
    a
}

/// The game and sound config files that pair up by stem: their physical paths
/// (game then sound, per stem) and their mounted names, stems in `str` order.
pub fn collect_game_sound_pairs(resource_root: &str, files: &[String]) -> (r: (Vec<String>, Vec<(String, String)>))
    ensures
        ({
            let fv = string_views(files@);
            let g = config_map(resource_root@, fv, true);
            let s = config_map(resource_root@, fv, false);
            let st = matched_stems(resource_root@, fv);
            &&& string_views(r.0@) == physical_of(st, g, s)
            &&& r.1@.map_values(|p: (String, String)| (p.0@, p.1@)) == pairs_of(st, g, s)
            &&& sorted_strict(st)
            &&& st.to_set() == g.dom().intersect(s.dom())
            &&& r.1@.len() == st.len()
            &&& forall|k: int| 0 <= k < st.len() ==> (#[trigger] r.1@[k]).0@ == config_alias(st[k], true)
                && r.1@[k].1@ == config_alias(st[k], false)
        }),
{
    let ghost fv = string_views(files@);
    let mut games: Vec<ConfigEntry> = Vec::new();
    let mut sounds: Vec<ConfigEntry> = Vec::new();
    let mut i: usize = 0;
    while i < files.len()
        invariant
            i <= files.len(),
            fv == string_views(files@),
            entries_map(games@) == config_map(resource_root@, fv.take(i as int), true),
            entries_map(sounds@) == config_map(resource_root@, fv.take(i as int), false),
        decreases files.len() - i,
    {
        assert(fv.take(i + 1).drop_last() =~= fv.take(i as int));
        assert(fv.take(i + 1).last() == files@[i as int]@);
        let ghost g0 = games@;
        let ghost s0 = sounds@;
        match config_info_exec(resource_root, files[i].as_str()) {
            Some((is_game, stem, rel)) => {
                let alias = alias_exec(&stem, is_game);
                if is_game {
                    games.push(ConfigEntry { stem, phys: rel, alias });
                    assert(games@.drop_last() =~= g0);
                } else {
                    sounds.push(ConfigEntry { stem, phys: rel, alias });
                    assert(sounds@.drop_last() =~= s0);
                }
            },
            None => {},
        }
        i = i + 1;
    }
    assert(fv.take(i as int) =~= fv);
    let ghost gm = config_map(resource_root@, fv, true);
    let ghost sm = config_map(resource_root@, fv, false);
    // The stems present in both maps, in order.
    let mut matched: Vec<Vec<char>> = Vec::new();
    let mut j: usize = 0;
    proof {
        lemma_entries_dom(games@);
    }
    assert(views(matched@).to_set() =~= Set::new(|k: Seq<char>| exists|m: int| 0 <= m < 0 && (#[trigger] games@[m]).stem@ == k).intersect(sm.dom()));
    while j < games.len()
        invariant
            j <= games@.len(),
            entries_map(games@) == gm,
            entries_map(sounds@) == sm,
            sorted_strict(views(matched@)),
            views(matched@).to_set() == Set::new(|k: Seq<char>| exists|m: int| 0 <= m < j && (#[trigger] games@[m]).stem@ == k).intersect(sm.dom()),
        decreases games.len() - j,
    {
        let ghost before = views(matched@).to_set();
        let ghost stem_j = games@[j as int].stem@;
        let ghost after_set = Set::new(|k: Seq<char>| exists|m: int| 0 <= m < j + 1 && (#[trigger] games@[m]).stem@ == k).intersect(sm.dom());
        match lookup(&sounds, &games[j].stem) {
            Some(_) => {
                let st = copy_chars(&games[j].stem);
                insert_sorted(&mut matched, st);
                assert(views(matched@).to_set() =~= after_set) by {
                    assert forall|k: Seq<char>| after_set.contains(k) implies views(matched@).to_set().contains(k) by {
                        let m = choose|m: int| 0 <= m < j + 1 && (#[trigger] games@[m]).stem@ == k;
                        if m < j {
                            assert(before.contains(k));
                        }
                    }
                }
            },
            None => {
                assert(views(matched@).to_set() =~= after_set) by {
                    assert forall|k: Seq<char>| after_set.contains(k) implies views(matched@).to_set().contains(k) by {
                        let m = choose|m: int| 0 <= m < j + 1 && (#[trigger] games@[m]).stem@ == k;
                        if m < j {
                            assert(before.contains(k));
                        }
                    }
                }
            },
        }
        j = j + 1;
    }
    proof {
        lemma_entries_dom(games@);
        assert(views(matched@).to_set() =~= gm.dom().intersect(sm.dom()));
        lemma_sorted_elements(views(matched@), gm.dom().intersect(sm.dom()));
    }
    let ghost st = views(matched@);
    // Physical files and mounted names, per matched stem.
    let mut physical: Vec<String> = Vec::new();
    let mut pairs: Vec<(String, String)> = Vec::new();
    let mut k: usize = 0;
    while k < matched.len()
        invariant
            k <= matched@.len(),
            st == views(matched@),
            entries_map(games@) == gm,
            entries_map(sounds@) == sm,
            views(matched@).to_set() == gm.dom().intersect(sm.dom()),
            string_views(physical@) == physical_of(st.take(k as int), gm, sm),
            pairs@.map_values(|p: (String, String)| (p.0@, p.1@)) == pairs_of(st.take(k as int), gm, sm),
        decreases matched.len() - k,
    {
        assert(views(matched@).to_set().contains(st[k as int]));
        let gi = lookup(&games, &matched[k]);
        let si = lookup(&sounds, &matched[k]);
        let gi = match gi {
            Some(x) => x,
            None => {
                assert(false);
                return (physical, pairs);
            },
        };
        let si = match si {
            Some(x) => x,
            None => {
                assert(false);
                return (physical, pairs);
            },
        };
        let ghost p0 = string_views(physical@);
        let ghost q0 = pairs@.map_values(|p: (String, String)| (p.0@, p.1@));
        physical.push(string_of(&games[gi].phys));
        physical.push(string_of(&sounds[si].phys));
        pairs.push((string_of(&games[gi].alias), string_of(&sounds[si].alias)));
        assert(st.take(k + 1).drop_last() =~= st.take(k as int));
        assert(st.take(k + 1).last() == st[k as int]);
        assert(string_views(physical@) =~= p0 + seq![gm[st[k as int]].0, sm[st[k as int]].0]);
        assert(pairs@.map_values(|p: (String, String)| (p.0@, p.1@)) =~= q0.push((gm[st[k as int]].1, sm[st[k as int]].1)));
        assert(pairs_of(st.take(k + 1), gm, sm) =~= pairs_of(st.take(k as int), gm, sm).push((gm[st[k as int]].1, sm[st[k as int]].1)));
        k = k + 1;
    }
    assert(st.take(k as int) =~= st);
    proof {
        let pv = pairs@.map_values(|p: (String, String)| (p.0@, p.1@));
        assert forall|m: int| 0 <= m < st.len() implies (#[trigger] pairs@[m]).0@ == config_alias(st[m], true)
            && pairs@[m].1@ == config_alias(st[m], false) by {
            assert(views(matched@).to_set().contains(st[m]));
            lemma_config_map_alias(resource_root@, fv, true, st[m]);
            lemma_config_map_alias(resource_root@, fv, false, st[m]);
            assert(pv[m] == pairs_of(st, gm, sm)[m]);
        }
    }
    (physical, pairs)
}

/// The audio layout of a resource, given the files found under its `sfx/`
/// folder and under its `audioconfig/` folder (full paths).
pub fn discover_audio(resource_root: &str, sfx_files: &[String], audioconfig_files: &[String]) -> (a: AudioManifest)
    ensures
        string_views(a.wavepacks@) == sorted_elements(wavepack_set(resource_root@, string_views(sfx_files@))),
        ({
            let fv = string_views(audioconfig_files@);
            let g = config_map(resource_root@, fv, true);
            let s = config_map(resource_root@, fv, false);
            let st = matched_stems(resource_root@, fv);
            &&& string_views(a.physical_files@) == physical_of(st, g, s)
            &&& a.game_sound_data@.map_values(|p: (String, String)| (p.0@, p.1@)) == pairs_of(st, g, s)
            &&& sorted_strict(st)
            &&& st.to_set() == g.dom().intersect(s.dom())
            &&& a.game_sound_data@.len() == st.len()
            &&& forall|k: int| 0 <= k < st.len() ==> (#[trigger] a.game_sound_data@[k]).0@ == config_alias(st[k], true)
                && a.game_sound_data@[k].1@ == config_alias(st[k], false)
        }),
        sorted_strict(string_views(a.wavepacks@)),
        string_views(a.wavepacks@).to_set() == wavepack_set(resource_root@, string_views(sfx_files@)),
{
    let dirs = collect_wavepack_dirs(resource_root, sfx_files);
    let mut wavepacks: Vec<String> = Vec::new();
    let mut k: usize = 0;
    while k < dirs.len()
        invariant
            k <= dirs@.len(),
            string_views(wavepacks@) == views(dirs@).take(k as int),
        decreases dirs.len() - k,
    {
        let ghost w0 = string_views(wavepacks@);
        let w = string_of(&dirs[k]);
        assert(w@ == views(dirs@)[k as int]);
        wavepacks.push(w);
        assert(string_views(wavepacks@) =~= w0.push(w@));
        assert(string_views(wavepacks@) =~= views(dirs@).take(k + 1));
        k = k + 1;
    }
    assert(views(dirs@).take(k as int) =~= views(dirs@));
    let (physical_files, game_sound_data) = collect_game_sound_pairs(resource_root, audioconfig_files);
    AudioManifest { wavepacks, physical_files, game_sound_data }
}

} // verus!
