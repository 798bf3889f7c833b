//! The conversion rules: where the resource and its folders go, which files
//! enter the resource and where, and the decisions around existing output.
use vstd::prelude::*;
use crate::manifest::{directive_for, directive_spec};
use crate::path::{
    comp_views, components, components_exec, dot_dot, extension_of, file_name,
    file_name_exec, file_stem_exec, file_stem_of, is_dot_dot, join_slash, join_slash_exec,
    path_extension, path_extension_exec, path_join, path_join_exec, rel_path_posix, rel_path_spec,
};
use crate::rpf::{to_lowercase, unicode_lowercase};
use crate::text::{
    ascii_lower, chars_of, contains, contains_str, ends_with, ends_with_str, eq_str, find_from,
    find_from_exec, lemma_find_from_bounds, lower_ascii, push_all, push_str, replace_char,
    replace_char_spec, slice_chars, string_of, trim_end_seq, trim_end_seq_exec, trim_start_char,
    trim_start_char_exec,
};

verus! {

pub struct ConvertOptions<'a> {
    pub input: &'a str,
    pub resource_name: &'a str,
    pub description: Option<&'a str>,
    pub output_dir: &'a str,
    pub combined: bool,
    pub combined_name: &'a str,
    /// Remove an existing output resource folder without prompting (`-y` / `--yes`).
    pub overwrite: bool,
}

pub struct ConvertResult {
    pub resource_path: String,
    pub streaming_name: Option<String>,
    pub elapsed_ms: u128,
}

/// The folders of a resource.
pub struct ResourceLayout {
    pub resource_dir: String,
    pub stream_dir: String,
    pub data_dir: String,
    pub sfx_dir: String,
    pub audioconfig_dir: String,
}

/// The resource folder: the combined resource's name when combining, else the resource name.
pub open spec fn resource_dir_spec(
    output_dir: Seq<char>,
    resource_name: Seq<char>,
    combined: bool,
    combined_name: Seq<char>,
) -> Seq<char> {
    if combined {
        path_join(output_dir, combined_name)
    } else {
        path_join(output_dir, resource_name)
    }
}

/// A category folder (`stream`, `data`, `sfx`, `audioconfig`) of the
/// resource; when combining, each mod gets a subfolder named after it.
pub open spec fn category_dir(resource_dir: Seq<char>, category: Seq<char>, resource_name: Seq<char>, combined: bool) -> Seq<char> {
    if combined {
        path_join(path_join(resource_dir, category), resource_name)
    } else {
        path_join(resource_dir, category)
    }
}

fn category_dir_exec(resource_dir: &[char], category: &str, resource_name: &[char], combined: bool) -> (r: String)
    ensures
        r@ == category_dir(resource_dir@, category@, resource_name@, combined),
{
    let c = chars_of(category);
    let d = path_join_exec(resource_dir, &c);
    if combined {
        let e = path_join_exec(&d, resource_name);
        string_of(&e)
    } else {
        string_of(&d)
    }
}

/// The resource folder and its `stream`, `data`, `sfx` and `audioconfig` folders.
pub fn resource_layout(opts: &ConvertOptions) -> (r: ResourceLayout)
    ensures
        r.resource_dir@ == resource_dir_spec(
            opts.output_dir@,
            opts.resource_name@,
            opts.combined,
            opts.combined_name@,
        ),
        r.stream_dir@ == category_dir(r.resource_dir@, "stream"@, opts.resource_name@, opts.combined),
        r.data_dir@ == category_dir(r.resource_dir@, "data"@, opts.resource_name@, opts.combined),
        r.sfx_dir@ == category_dir(r.resource_dir@, "sfx"@, opts.resource_name@, opts.combined),
        r.audioconfig_dir@ == category_dir(
            r.resource_dir@,
            "audioconfig"@,
            opts.resource_name@,
            opts.combined,
        ),
{
    let out = chars_of(opts.output_dir);
    let name = chars_of(opts.resource_name);
    let rd = if opts.combined {
        let cn = chars_of(opts.combined_name);
        path_join_exec(&out, &cn)
    } else {
        path_join_exec(&out, &name)
    };
    ResourceLayout {
        resource_dir: string_of(&rd),
        stream_dir: category_dir_exec(&rd, "stream", &name, opts.combined),
        data_dir: category_dir_exec(&rd, "data", &name, opts.combined),
        sfx_dir: category_dir_exec(&rd, "sfx", &name, opts.combined),
        audioconfig_dir: category_dir_exec(&rd, "audioconfig", &name, opts.combined),
    }
}

/// The URL written into the manifest: the input when it is a web address.
pub fn manifest_url<'a>(opts: &ConvertOptions<'a>) -> (r: Option<&'a str>)
    ensures
        r matches Some(u) ==> crate::web::is_http_url_spec(opts.input@) && u@ == opts.input@,
        r is None ==> !crate::web::is_http_url_spec(opts.input@),
{
    if crate::web::is_http_url(opts.input) {
        Some(opts.input)
    } else {
        None
    }
}

/// What to do about an output folder that may already exist.
#[derive(Debug, Clone, Copy, PartialEq, Eq, Structural)]
pub enum OutputAction {
    /// Nothing there, or an empty folder: write into it.
    Proceed,
    /// Remove the existing folder first.
    Remove,
    /// Ask on the terminal whether to remove it.
    Ask,
    /// Refuse: the folder is not empty and nobody can be asked.
    Refuse,
}

/// An existing non-empty output folder is removed when overwriting was asked
/// for, the user is asked when a terminal is attached, and it is refused otherwise.
pub open spec fn output_action_spec(present: bool, non_empty: bool, overwrite: bool, interactive: bool) -> OutputAction {
    if !present || !non_empty {
        OutputAction::Proceed
    } else if overwrite {
        OutputAction::Remove
    } else if interactive {
        OutputAction::Ask
    } else {
        OutputAction::Refuse
    }
}

pub fn output_action(present: bool, non_empty: bool, overwrite: bool, interactive: bool) -> (r: OutputAction)
    ensures
        r == output_action_spec(present, non_empty, overwrite, interactive),
{
    if !present {
        return OutputAction::Proceed;
    }
    if !non_empty {
        return OutputAction::Proceed;
    }
    if overwrite {
        return OutputAction::Remove;
    }
    if interactive {
        OutputAction::Ask
    } else {
        OutputAction::Refuse
    }
}

/// An existing, non-empty output folder is removed only when overwriting was
/// asked for or the user can be asked; it is never written into as it is.
pub proof fn lemma_existing_output_needs_consent(present: bool, non_empty: bool, overwrite: bool, interactive: bool)
    ensures
        output_action_spec(present, non_empty, overwrite, interactive) == OutputAction::Remove ==> overwrite,
        output_action_spec(present, non_empty, overwrite, interactive) == OutputAction::Ask ==> interactive && !overwrite,
        present && non_empty ==> output_action_spec(present, non_empty, overwrite, interactive) != OutputAction::Proceed,
{
}

/// `char::is_whitespace`: the Unicode `White_Space` characters.
pub open spec fn is_white_space(c: char) -> bool {
    let u = c as u32;
    (0x09 <= u <= 0x0D) || u == 0x20 || u == 0x85 || u == 0xA0 || u == 0x1680 || (0x2000 <= u
        <= 0x200A) || u == 0x2028 || u == 0x2029 || u == 0x202F || u == 0x205F || u == 0x3000
}

fn is_white_space_exec(c: char) -> (r: bool)
    ensures
        r == is_white_space(c),
{
    let u = c as u32;
    (0x09 <= u && u <= 0x0D) || u == 0x20 || u == 0x85 || u == 0xA0 || u == 0x1680 || (0x2000 <= u
        && u <= 0x200A) || u == 0x2028 || u == 0x2029 || u == 0x202F || u == 0x205F || u == 0x3000
}

/// The first index at or after `i` of a non-white-space character, or the length.
pub open spec fn first_non_space(s: Seq<char>, i: int) -> int
    decreases s.len() - i,
{
    if i >= s.len() || !is_white_space(s[i]) {
        i
    } else {
        first_non_space(s, i + 1)
    }
}

/// One past the last index before `j` of a non-white-space character, or `i`.
pub open spec fn last_non_space(s: Seq<char>, i: int, j: int) -> int
    decreases j - i,
{
    if j <= i || !is_white_space(s[j - 1]) {
        j
    } else {
        last_non_space(s, i, j - 1)
    }
}

/// `str::trim`: white space removed from both ends.
pub open spec fn trim_spec(s: Seq<char>) -> Seq<char> {
    let a = first_non_space(s, 0);
    s.subrange(a, last_non_space(s, a, s.len() as int))
}

proof fn lemma_first_non_space(s: Seq<char>, i: int)
    requires
        0 <= i <= s.len(),
    ensures
        i <= first_non_space(s, i) <= s.len(),
    decreases s.len() - i,
{
    if i < s.len() && is_white_space(s[i]) {
        lemma_first_non_space(s, i + 1);
    }
}

proof fn lemma_last_non_space(s: Seq<char>, i: int, j: int)
    requires
        0 <= i <= j <= s.len(),
    ensures
        i <= last_non_space(s, i, j) <= j,
    decreases j - i,
{
    if i < j && is_white_space(s[j - 1]) {
        lemma_last_non_space(s, i, j - 1);
    }
}

fn trim_exec(s: &[char]) -> (r: Vec<char>)
    ensures
        r@ == trim_spec(s@),
{
    let mut a: usize = 0;
    while a < s.len() && is_white_space_exec(s[a])
        invariant
            a <= s.len(),
            first_non_space(s@, 0) == first_non_space(s@, a as int),
        decreases s.len() - a,
    {
        a = a + 1;
    }
    let mut b: usize = s.len();
    while b > a && is_white_space_exec(s[b - 1])
        invariant
            a <= b <= s.len(),
            a == first_non_space(s@, 0),
            last_non_space(s@, a as int, s.len() as int) == last_non_space(s@, a as int, b as int),
        decreases b,
    {
        b = b - 1;
    }
    slice_chars(s, a, b)
}

/// The answer to the overwrite question accepts: `y` or `yes` in any ASCII
/// case, with surrounding white space ignored.
pub open spec fn confirms_overwrite_spec(answer: Seq<char>) -> bool {
    let t = ascii_lower(trim_spec(answer));
    t == "y"@ || t == "yes"@
}

/// Whether the answer to the overwrite question accepts.
pub fn confirms_overwrite(answer: &str) -> (r: bool)
    ensures
        r == confirms_overwrite_spec(answer@),
{
    let cs = chars_of(answer);
    let t = trim_exec(&cs);
    let l = lower_ascii(&t);
    eq_str(&l, "y") || eq_str(&l, "yes")
}


/// Path under `sfx/` (no `sfx/` prefix) for an audio wavepack: what follows
/// `/sfx/` in the name (leading `/` removed), else what follows `audio/sfx/`
/// (found case-insensitively), else `dlc_<stem without _npc>/<file name>`.
pub open spec fn sfx_dest_spec(internal_name: Seq<char>) -> Seq<char> {
    let p = replace_char_spec(internal_name, '\\', '/');
    match find_from(p, "/sfx/"@, 0) {
        Some(idx) => trim_start_char(p.skip(idx + 5), '/'),
        None => match find_from(ascii_lower(p), "audio/sfx/"@, 0) {
            Some(pos) => p.skip(pos + 10),
            None => {
                let name = match file_name(p) {
                    Some(n) => n,
                    None => "pack.awc"@,
                };
                path_join("dlc_"@ + trim_end_seq(file_stem_of(name), "_npc"@), name)
            },
        },
    }
}

/// Path under `sfx/` for writing a wavepack into the resource's `sfx` folder.
/// (`fallback_dlc` would name the folder of a file without a stem; every file
/// name has one.)
pub fn normalize_sfx_dest(internal_name: &str, fallback_dlc: &str) -> (r: String)
    ensures
        r@ == sfx_dest_spec(internal_name@),
{
    let n = chars_of(internal_name);
    let p = replace_char(&n, '\\', '/');
    proof {
        reveal_strlit("/sfx/");
        reveal_strlit("audio/sfx/");
    }
    let sfx_pat = chars_of("/sfx/");
    assert(sfx_pat@.len() == 5);
    proof {
        lemma_find_from_bounds(p@, sfx_pat@, 0);
    }
    if let Some(idx) = find_from_exec(&p, &sfx_pat, 0) {
        assert(idx + 5 <= p.len());
        let rest = slice_chars(&p, idx + 5, p.len());
        assert(rest@ =~= p@.skip(idx + 5));
        let t = trim_start_char_exec(&rest, '/');
        return string_of(&t);
    }
    let lower = lower_ascii(&p);
    let audio_pat = chars_of("audio/sfx/");
    assert(audio_pat@.len() == 10);
    assert(lower@.len() == p@.len());
    proof {
        lemma_find_from_bounds(lower@, audio_pat@, 0);
    }
    if let Some(pos) = find_from_exec(&lower, &audio_pat, 0) {
        assert(pos + 10 <= p.len());
        let rest = slice_chars(&p, pos + 10, p.len());
        assert(rest@ =~= p@.skip(pos + 10));
        return string_of(&rest);
    }
    let name = match file_name_exec(&p) {
        Some(x) => x,
        None => chars_of("pack.awc"),
    };
    let stem = file_stem_exec(&name);
    let dlc = trim_end_seq_exec(&stem, &chars_of("_npc"));
    let mut folder = chars_of("dlc_");
    push_all(&mut folder, &dlc);
    let r = path_join_exec(&folder, &name);
    string_of(&r)
}

/// The file name of an audio config entry (`audio.rel` when it has none).
pub open spec fn audio_config_basename_spec(internal_name: Seq<char>) -> Seq<char> {
    match file_name(internal_name) {
        Some(n) => n,
        None => "audio.rel"@,
    }
}

pub fn audio_config_basename(internal_name: &str) -> (r: String)
    ensures
        r@ == audio_config_basename_spec(internal_name@),
{
    let n = chars_of(internal_name);
    match file_name_exec(&n) {
        Some(x) => string_of(&x),
        None => "audio.rel".to_string(),
    }
}

/// Audio game/sound configuration files: `.rel`/`.nametable` files whose name
/// mentions `dat151`, `dat54`, `dat10`, `_game` or `_sounds`, and `*_game.dat`
/// / `*_sounds.dat` files (file names compared in ASCII lower case).
pub open spec fn is_audio_config_spec(name: Seq<char>) -> bool {
    let base = ascii_lower(
        match file_name(name) {
            Some(n) => n,
            None => seq![],
        },
    );
    if ends_with(base, ".rel"@) || ends_with(base, ".nametable"@) {
        contains(base, "dat151"@) || contains(base, "dat54"@) || contains(base, "dat10"@)
            || contains(base, "_game"@) || contains(base, "_sounds"@)
    } else {
        ends_with(base, "_game.dat"@) || ends_with(base, "_sounds.dat"@)
    }
}

pub fn is_audio_config_file(name: &str) -> (r: bool)
    ensures
        r == is_audio_config_spec(name@),
{
    let n = chars_of(name);
    let fname = match file_name_exec(&n) {
        Some(x) => x,
        None => Vec::new(),
    };
    assert(fname@ =~= match file_name(name@) {
        Some(n) => n,
        None => seq![],
    });
    let base = lower_ascii(&fname);
    if ends_with_str(&base, ".rel") || ends_with_str(&base, ".nametable") {
        contains_str(&base, "dat151") || contains_str(&base, "dat54") || contains_str(&base, "dat10")
            || contains_str(&base, "_game") || contains_str(&base, "_sounds")
    } else {
        ends_with_str(&base, "_game.dat") || ends_with_str(&base, "_sounds.dat")
    }
}

/// The audio stem of a lower-cased config file name: what precedes the first `marker`.
pub open spec fn stem_before(name_lower: Seq<char>, marker: Seq<char>) -> Option<Seq<char>> {
    match find_from(name_lower, marker, 0) {
        Some(idx) => Some(name_lower.take(idx)),
        None => None,
    }
}

fn stem_before_exec(name_lower: &str, marker: &str) -> (r: Option<String>)
    ensures
        r matches Some(s) ==> stem_before(name_lower@, marker@) == Some(s@),
        r is None ==> stem_before(name_lower@, marker@) is None,
{
    let n = chars_of(name_lower);
    proof {
        lemma_find_from_bounds(n@, marker@, 0);
    }
    match find_from_exec(&n, &chars_of(marker), 0) {
        Some(idx) => {
            let t = slice_chars(&n, 0, idx);
            assert(t@ =~= n@.take(idx as int));
            Some(string_of(&t))
        },
        None => None,
    }
}

/// The stem of a game data file name (`<stem>_game.*`).
pub fn audio_stem_from_game(name_lower: &str) -> (r: Option<String>)
    ensures
        r matches Some(s) ==> stem_before(name_lower@, "_game."@) == Some(s@),
        r is None ==> stem_before(name_lower@, "_game."@) is None,
{
    stem_before_exec(name_lower, "_game.")
}

/// The stem of a sound data file name (`<stem>_sounds.*`).
pub fn audio_stem_from_sound(name_lower: &str) -> (r: Option<String>)
    ensures
        r matches Some(s) ==> stem_before(name_lower@, "_sounds."@) == Some(s@),
        r is None ==> stem_before(name_lower@, "_sounds."@) is None,
{
    stem_before_exec(name_lower, "_sounds.")
}

/// Sets byte 3 of a resource header to `'7'` (RSC7), when there is one.
pub fn fix_resource_header(data: &mut Vec<u8>)
    ensures
        old(data)@.len() >= 4 ==> final(data)@ == old(data)@.update(3, 0x37u8),
        old(data)@.len() < 4 ==> final(data)@ == old(data)@,
{
    if data.len() >= 4 {
        data.set(3, 0x37u8);
    }
}

/// The vehicle data files: these file names, compared on the lower-cased name.
pub open spec fn vehicle_meta_name(base: Seq<char>) -> bool {
    base == "handling.meta"@ || base == "vehicles.meta"@ || base == "vehiclelayouts.meta"@ || base
        == "carcols.meta"@ || base == "carvariations.meta"@ || base == "dlctext.meta"@ || base
        == "contentunlocks.meta"@ || base == "vehiclemodelsets.meta"@
}

pub open spec fn vehicle_meta_spec(name_lower: Seq<char>) -> bool {
    vehicle_meta_name(
        match file_name(name_lower) {
            Some(n) => n,
            None => seq![],
        },
    )
}

/// Whether a lower-cased file name is one of the vehicle data files.
pub fn is_vehicle_meta_lower(name_lower: &str) -> (r: bool)
    ensures
        r == vehicle_meta_spec(name_lower@),
{
    let n = chars_of(name_lower);
    let b = match file_name_exec(&n) {
        Some(x) => x,
        None => Vec::new(),
    };
    assert(b@ =~= match file_name(name_lower@) {
        Some(n) => n,
        None => seq![],
    });
    eq_str(&b, "handling.meta") || eq_str(&b, "vehicles.meta") || eq_str(&b, "vehiclelayouts.meta")
        || eq_str(&b, "carcols.meta") || eq_str(&b, "carvariations.meta") || eq_str(
        &b,
        "dlctext.meta",
    ) || eq_str(&b, "contentunlocks.meta") || eq_str(&b, "vehiclemodelsets.meta")
}

/// Check if a .meta filename is a vehicle-relevant data file.
pub fn is_vehicle_meta(name: &str) -> (r: bool)
    ensures
        r == vehicle_meta_spec(unicode_lowercase(name@)),
{
    let lower = to_lowercase(name);
    is_vehicle_meta_lower(lower.as_str())
}

/// A name ending in `.meta` with something before it has the extension `meta`.
proof fn lemma_meta_extension(b: Seq<char>)
    requires
        b.len() > 5,
        b.subrange(b.len() - 5, b.len() as int) == ".meta"@,
    ensures
        extension_of(b) == Some("meta"@),
{
    reveal_strlit(".meta");
    reveal_strlit("meta");
    let k = b.len() - 5;
    let t = b.subrange(k, b.len() as int);
    assert(b[k] == t[0]);
    assert forall|j: int| k < j < b.len() implies b[j] != '.' by {
        assert(b[j] == t[j - k]);
    }
    crate::path::lemma_last_dot(b, k);
    assert(b.subrange(k + 1, b.len() as int) =~= "meta"@) by {
        assert forall|j: int| 0 <= j < 4 implies b.subrange(k + 1, b.len() as int)[j] == "meta"@[j] by {
            assert(b[k + 1 + j] == t[j + 1]);
        }
    }
    assert(b != crate::path::dot_dot());
}

proof fn lemma_last_slash_replace(s: Seq<char>)
    requires
        forall|j: int| crate::path::last_index_of(s, '/') < j < s.len() ==> s[j] != '\\',
    ensures
        crate::path::last_index_of(replace_char_spec(s, '\\', '/'), '/') == crate::path::last_index_of(s, '/'),
    decreases s.len(),
{
    let r = replace_char_spec(s, '\\', '/');
    crate::path::lemma_last_index_of(s, '/');
    if s.len() > 0 && s.last() == '/' {
        assert(r.last() == '/');
    }
    if s.len() > 0 && s.last() != '/' {
        crate::path::lemma_last_index_of(s.drop_last(), '/');
        assert(s.last() == s[s.len() - 1]);
        assert(s[s.len() - 1] != '\\');
        assert(r.last() == s.last());
        assert(r.drop_last() =~= replace_char_spec(s.drop_last(), '\\', '/'));
        assert forall|j: int| crate::path::last_index_of(s.drop_last(), '/') < j < s.drop_last().len() implies s.drop_last()[j] != '\\' by {
            assert(s.drop_last()[j] == s[j]);
        }
        lemma_last_slash_replace(s.drop_last());
    }
}

/// Turning `\` into `/` keeps a file name that has no `\` in it.
proof fn lemma_file_name_replace(s: Seq<char>, b: Seq<char>)
    requires
        file_name(s) == Some(b),
        !b.contains('\\'),
    ensures
        file_name(replace_char_spec(s, '\\', '/')) == Some(b),
    decreases s.len(),
{
    let i = crate::path::last_index_of(s, '/');
    crate::path::lemma_last_index_of(s, '/');
    let seg = s.subrange(i + 1, s.len() as int);
    let r = replace_char_spec(s, '\\', '/');
    if seg.len() == 0 || seg == crate::path::dot() {
        assert forall|j: int| i < j < s.len() implies s[j] != '\\' by {
            if seg.len() > 0 {
                assert(s[j] == seg[j - i - 1]);
            }
        }
        lemma_last_slash_replace(s);
        assert(r.subrange(i + 1, r.len() as int) =~= seg);
        if i >= 0 {
            assert(r.subrange(0, i) =~= replace_char_spec(s.subrange(0, i), '\\', '/'));
            lemma_file_name_replace(s.subrange(0, i), b);
        }
    } else {
        assert(seg == b);
        assert forall|j: int| i < j < s.len() implies s[j] != '\\' by {
            assert(s[j] == seg[j - i - 1]);
            if s[j] == '\\' {
                assert(b.contains('\\'));
            }
        }
        lemma_last_slash_replace(s);
        assert(r.subrange(i + 1, r.len() as int) =~= seg);
    }
}

proof fn lemma_vehicle_name_shape(b: Seq<char>)
    requires
        vehicle_meta_name(b),
    ensures
        b.len() > 5,
        b.subrange(b.len() - 5, b.len() as int) == ".meta"@,
        !b.contains('\\'),
{
    reveal_strlit(".meta");
    reveal_strlit("handling.meta");
    reveal_strlit("vehicles.meta");
    reveal_strlit("vehiclelayouts.meta");
    reveal_strlit("carcols.meta");
    reveal_strlit("carvariations.meta");
    reveal_strlit("dlctext.meta");
    reveal_strlit("contentunlocks.meta");
    reveal_strlit("vehiclemodelsets.meta");
    assert(b.subrange(b.len() - 5, b.len() as int) =~= ".meta"@);
    assert forall|j: int| 0 <= j < b.len() implies b[j] != '\\' by {}
}

/// A vehicle data file always gets a `data_file` mounter, when Unicode and
/// ASCII lower-casing agree on its file name (folders above it may hold any
/// characters).
pub proof fn lemma_vehicle_meta_has_mounter(name: Seq<char>)
    requires
        vehicle_meta_spec(unicode_lowercase(name)),
        file_name(unicode_lowercase(name)) == file_name(ascii_lower(name)),
    ensures
        directive_spec(name) is Some,
{
    let l = ascii_lower(name);
    if vehicle_meta_name(Seq::<char>::empty()) {
        lemma_vehicle_name_shape(Seq::<char>::empty());
    }
    assert(!vehicle_meta_name(Seq::<char>::empty()));
    let b = file_name(l)->0;
    assert(file_name(l) == Some(b));
    lemma_vehicle_name_shape(b);
    lemma_file_name_replace(l, b);
    assert(crate::manifest::normalized_lower(name) =~= replace_char_spec(l, '\\', '/')) by {
        assert forall|k: int| 0 <= k < name.len() implies crate::manifest::normalized_lower(name)[k]
            == replace_char_spec(l, '\\', '/')[k] by {
            crate::manifest::lemma_lower_char_idempotent(name[k]);
            crate::manifest::lemma_lower_char_idempotent('/');
            assert(!crate::text::is_ascii_upper('/'));
        }
    }
    lemma_meta_extension(b);
}

/// After conversion the resource folder takes the streaming model's name,
/// unless a name was given or mods are combined, or it already has that name.
pub open spec fn rename_target_spec(
    name_explicit: bool,
    combine: bool,
    streaming_name: Option<Seq<char>>,
    resource_name: Seq<char>,
) -> Option<Seq<char>> {
    if !name_explicit && !combine {
        match streaming_name {
            Some(m) => if m != resource_name {
                Some(m)
            } else {
                None
            },
            None => None,
        }
    } else {
        None
    }
}

/// The name the resource folder is renamed to after conversion, if any.
pub fn rename_target(
    name_explicit: bool,
    combine: bool,
    streaming_name: Option<&str>,
    resource_name: &str,
) -> (r: Option<String>)
    ensures
        r matches Some(m) ==> rename_target_spec(
            name_explicit,
            combine,
            crate::manifest::opt_view(streaming_name),
            resource_name@,
        ) == Some(m@),
        r is None ==> rename_target_spec(
            name_explicit,
            combine,
            crate::manifest::opt_view(streaming_name),
            resource_name@,
        ) is None,
{
    if !name_explicit && !combine {
        if let Some(model) = streaming_name {
            let m = chars_of(model);
            if !eq_str(&m, resource_name) {
                return Some(model.to_string());
            }
        }
    }
    None
}

/// The wavepack folder `sfx/dlc_<resource slug>` is renamed to
/// `sfx/dlc_<streaming model>` so that the wavepack matches the model's audio
/// name; nothing changes when the two names agree.
pub open spec fn wavepack_rename_spec(resource_slug: Seq<char>, streaming_model: Seq<char>) -> Option<(Seq<char>, Seq<char>)> {
    if resource_slug == streaming_model {
        None
    } else {
        Some(("dlc_"@ + resource_slug, "dlc_"@ + streaming_model))
    }
}

/// The wavepack folder names (under `sfx/`) to rename from and to, if any.
pub fn wavepack_rename(resource_slug: &str, streaming_model: &str) -> (r: Option<(String, String)>)
    ensures
        r matches Some(p) ==> wavepack_rename_spec(resource_slug@, streaming_model@) == Some(
            (p.0@, p.1@),
        ),
        r is None ==> wavepack_rename_spec(resource_slug@, streaming_model@) is None,
{
    let a = chars_of(resource_slug);
    if eq_str(&a, streaming_model) {
        return None;
    }
    let mut from = chars_of("dlc_");
    push_str(&mut from, resource_slug);
    let mut to = chars_of("dlc_");
    push_str(&mut to, streaming_model);
    Some((string_of(&from), string_of(&to)))
}


/// Where a file found in an archive goes in the resource.
pub enum FileRoute {
    /// Into the `stream` folder, at `rel` (`maps/` for map assets, `paths/`
    /// for path and navigation assets); `fix_header` for `.ytd`/`.yft`.
    Stream { rel: String, fix_header: bool },
    /// Into the `sfx` folder, at `rel`.
    Sfx { rel: String },
    /// Into the `audioconfig` folder, under `file_name`.
    AudioConfig { file_name: String },
    /// Into the `data` folder at `rel`, mounted as `directive`; `manifest_path`
    /// is its path relative to the resource root.
    Data { rel: String, manifest_path: String, directive: &'static str },
    /// Left out of the resource.
    Omitted,
}

pub enum RouteView {
    Stream { rel: Seq<char>, fix_header: bool },
    Sfx { rel: Seq<char> },
    AudioConfig { file_name: Seq<char> },
    Data { rel: Seq<char>, manifest_path: Seq<char>, directive: Seq<char> },
    Omitted,
}

impl View for FileRoute {
    type V = RouteView;

    open spec fn view(&self) -> RouteView {
        match self {
            FileRoute::Stream { rel, fix_header } => RouteView::Stream { rel: rel@, fix_header: *fix_header },
            FileRoute::Sfx { rel } => RouteView::Sfx { rel: rel@ },
            FileRoute::AudioConfig { file_name } => RouteView::AudioConfig { file_name: file_name@ },
            FileRoute::Data { rel, manifest_path, directive } => RouteView::Data {
                rel: rel@,
                manifest_path: manifest_path@,
                directive: directive@,
            },
            FileRoute::Omitted => RouteView::Omitted,
        }
    }
}

/// The subfolder of `stream` for a streamed asset extension, if the format is
/// one FiveM can stream: models, textures, drawables and clips at the top,
/// map assets under `maps/`, path and navigation assets under `paths/`.
pub open spec fn stream_subfolder(ext: Seq<char>) -> Option<Seq<char>> {
    if ext == "yft"@ || ext == "ytd"@ || ext == "ydr"@ || ext == "ydd"@ || ext == "ycd"@ {
        Some(seq![])
    } else if ext == "ymap"@ || ext == "ytyp"@ || ext == "ybn"@ {
        Some("maps/"@)
    } else if ext == "ynd"@ || ext == "ynv"@ {
        Some("paths/"@)
    } else {
        None
    }
}

fn stream_subfolder_exec(ext: &[char]) -> (r: Option<Vec<char>>)
    ensures
        r matches Some(v) ==> stream_subfolder(ext@) == Some(v@),
        r is None ==> stream_subfolder(ext@) is None,
{
    if eq_str(ext, "yft") || eq_str(ext, "ytd") || eq_str(ext, "ydr") || eq_str(ext, "ydd") || eq_str(ext, "ycd") {
        let v: Vec<char> = Vec::new();
        assert(v@ =~= Seq::<char>::empty());
        Some(v)
    } else if eq_str(ext, "ymap") || eq_str(ext, "ytyp") || eq_str(ext, "ybn") {
        Some(chars_of("maps/"))
    } else if eq_str(ext, "ynd") || eq_str(ext, "ynv") {
        Some(chars_of("paths/"))
    } else {
        None
    }
}

/// The extension of a name in ASCII lower case (empty when it has none).
pub open spec fn lower_extension(name: Seq<char>) -> Seq<char> {
    ascii_lower(
        match path_extension(name) {
            Some(e) => e,
            None => seq![],
        },
    )
}

/// The file name of a name, or the name itself when it has none.
pub open spec fn basename_or_self(name: Seq<char>) -> Seq<char> {
    match file_name(name) {
        Some(n) => n,
        None => name,
    }
}

/// The index of the last `data` folder (ASCII case ignored) among the first
/// `k` components, or -1.
pub open spec fn last_data_dir(c: Seq<Seq<char>>, k: int) -> int
    decreases k,
{
    if k <= 0 {
        -1
    } else if ascii_lower(c[k - 1]) == "data"@ {
        k - 1
    } else {
        last_data_dir(c, k - 1)
    }
}

/// Where a data file goes under `data/`: its path below the last `data`
/// folder it sits in (so `vehicles/main.meta` and `peds/main.meta` stay
/// apart), or its file name when it sits in no `data` folder or the path
/// below would climb out with `..`.
pub open spec fn semantic_data_path(rel: Seq<char>) -> Seq<char> {
    let c = components(replace_char_spec(rel, '\\', '/'));
    let m = last_data_dir(c, c.len() - 1);
    if m >= 0 && !c.skip(m + 1).contains(dot_dot()) {
        join_slash(c.skip(m + 1))
    } else {
        basename_or_self(rel)
    }
}

/// The data folder relative to the resource root.
pub open spec fn data_prefix(resource_name: Seq<char>, combined: bool) -> Seq<char> {
    if combined {
        path_join("data"@, resource_name)
    } else {
        "data"@
    }
}

/// Where a file goes: streamed assets of known formats into `stream`,
/// wavepacks into `sfx`, audio configs into `audioconfig` (for loose files only
/// `.rel`/`.dat` ones), data files into `data` when they map to a known
/// mounter; everything else is left out. `name` is the file's path (an entry
/// name inside an archive), `rel` its path inside the archive.
pub open spec fn route_spec(name: Seq<char>, rel: Seq<char>, resource_name: Seq<char>, combined: bool, loose: bool) -> RouteView {
    let ext = lower_extension(name);
    match stream_subfolder(ext) {
        Some(sub) => RouteView::Stream {
            rel: sub + basename_or_self(name),
            fix_header: ext == "ytd"@ || ext == "yft"@,
        },
        None => if ext == "awc"@ {
            RouteView::Sfx { rel: sfx_dest_spec(name) }
        } else if is_audio_config_spec(name) && (!loose || ext == "rel"@ || ext == "dat"@) {
            RouteView::AudioConfig { file_name: audio_config_basename_spec(name) }
        } else {
            let d = semantic_data_path(rel);
            let mp = path_join(data_prefix(resource_name, combined), d);
            match directive_spec(mp) {
                Some(dir) => RouteView::Data { rel: d, manifest_path: mp, directive: dir },
                None => RouteView::Omitted,
            }
        },
    }
}

fn basename_or_self_exec(name: &[char]) -> (r: Vec<char>)
    ensures
        r@ == basename_or_self(name@),
{
    match file_name_exec(name) {
        Some(n) => n,
        None => {
            let v = crate::text::slice_chars(name, 0, name.len());
            assert(v@ =~= name@);
            v
        },
    }
}

fn lower_extension_exec(name: &[char]) -> (r: Vec<char>)
    ensures
        r@ == lower_extension(name@),
{
    let e = match path_extension_exec(name) {
        Some(e) => e,
        None => Vec::new(),
    };
    assert(e@ =~= match path_extension(name@) {
        Some(e) => e,
        None => seq![],
    });
    lower_ascii(&e)
}

fn last_data_dir_exec(c: &Vec<Vec<char>>, k: usize) -> (r: Option<usize>)
    requires
        k <= c@.len(),
    ensures
        r matches Some(m) ==> last_data_dir(comp_views(c@), k as int) == m as int && m < k,
        r is None ==> last_data_dir(comp_views(c@), k as int) == -1,
    decreases k,
{
    if k == 0 {
        return None;
    }
    let l = lower_ascii(&c[k - 1]);
    if eq_str(&l, "data") {
        Some(k - 1)
    } else {
        last_data_dir_exec(c, k - 1)
    }
}

fn semantic_data_path_exec(rel: &[char]) -> (r: Vec<char>)
    ensures
        r@ == semantic_data_path(rel@),
{
    let p = replace_char(rel, '\\', '/');
    let c = components_exec(&p);
    let ghost cv = comp_views(c@);
    let last = if c.len() > 0 { last_data_dir_exec(&c, c.len() - 1) } else { None };
    let found = last.is_some();
    let m: usize = match last {
        Some(x) => x,
        None => 0,
    };
    assert(found ==> last_data_dir(cv, cv.len() - 1) == m as int);
    assert(!found ==> last_data_dir(cv, cv.len() - 1) < 0);
    if found {
        let mut tail: Vec<Vec<char>> = Vec::new();
        let mut climbs = false;
        let mut j = m + 1;
        while j < c.len()
            invariant
                m + 1 <= j <= c@.len(),
                cv == comp_views(c@),
                comp_views(tail@) == cv.subrange(m + 1, j as int),
                climbs == cv.subrange(m + 1, j as int).contains(dot_dot()),
            decreases c.len() - j,
        {
            let ghost t0 = comp_views(tail@);
            let x = crate::text::slice_chars(&c[j], 0, c[j].len());
            assert(x@ =~= cv[j as int]);
            let ghost old_climbs = climbs;
            let dd = is_dot_dot(&x);
            if dd {
                climbs = true;
            }
            proof {
                let a = cv.subrange(m + 1, j as int);
                let b = cv.subrange(m + 1, j + 1);
                assert(b =~= a.push(cv[j as int]));
                if a.contains(dot_dot()) {
                    let q = choose|q: int| 0 <= q < a.len() && a[q] == dot_dot();
                    assert(b[q] == dot_dot());
                }
                if dd {
                    assert(b[b.len() - 1] == dot_dot());
                }
                if b.contains(dot_dot()) {
                    let q = choose|q: int| 0 <= q < b.len() && b[q] == dot_dot();
                    if q < a.len() {
                        assert(a[q] == dot_dot());
                    }
                }
            }
            tail.push(x);
            assert(comp_views(tail@) =~= t0.push(cv[j as int]));
            assert(cv.subrange(m + 1, j + 1) =~= cv.subrange(m + 1, j as int).push(cv[j as int]));
            j = j + 1;
        }
        assert(cv.subrange(m + 1, j as int) =~= cv.skip(m + 1));
        if !climbs {
            return join_slash_exec(&tail);
        }
    }
    basename_or_self_exec(rel)
}

/// Where the file `name` (at `rel` inside the archive) goes in the resource.
pub fn route_file(name: &str, rel: &str, resource_name: &str, combined: bool, loose: bool) -> (r: FileRoute)
    ensures
        r@ == route_spec(name@, rel@, resource_name@, combined, loose),
{
    let n = chars_of(name);
    let ext = lower_extension_exec(&n);
    match stream_subfolder_exec(&ext) {
        Some(sub) => {
            let mut out = sub;
            let b = basename_or_self_exec(&n);
            push_all(&mut out, &b);
            let fix = eq_str(&ext, "ytd") || eq_str(&ext, "yft");
            FileRoute::Stream { rel: string_of(&out), fix_header: fix }
        },
        None => {
            if eq_str(&ext, "awc") {
                FileRoute::Sfx { rel: normalize_sfx_dest(name, resource_name) }
            } else if is_audio_config_file(name) && (!loose || eq_str(&ext, "rel") || eq_str(&ext, "dat")) {
                FileRoute::AudioConfig { file_name: audio_config_basename(name) }
            } else {
                let rc = chars_of(rel);
                let d = semantic_data_path_exec(&rc);
                let prefix = if combined {
                    path_join_exec(&chars_of("data"), &chars_of(resource_name))
                } else {
                    chars_of("data")
                };
                let mp = path_join_exec(&prefix, &d);
                let mps = string_of(&mp);
                match directive_for(mps.as_str()) {
                    Some(dir) => FileRoute::Data { rel: string_of(&d), manifest_path: mps, directive: dir },
                    None => FileRoute::Omitted,
                }
            }
        },
    }
}

/// A `.ytd` (not a `+hi.ytd`) or `.yft` names a streaming model when its
/// counterpart (`<base>.yft` / `<base>.ytd`) is already in the stream folder;
/// for loose files `_hi.yft` models are not considered.
pub open spec fn streaming_candidate_spec(name: Seq<char>, loose: bool) -> Option<(Seq<char>, Seq<char>)> {
    let ext = lower_extension(name);
    let base = basename_or_self(name);
    if ext == "ytd"@ && !ends_with(base, "+hi.ytd"@) {
        let b = trim_end_seq(base, ".ytd"@);
        Some((b, b + ".yft"@))
    } else if ext == "yft"@ && !(loose && ends_with(base, "_hi.yft"@)) {
        let b = trim_end_seq(base, ".yft"@);
        Some((b, b + ".ytd"@))
    } else {
        None
    }
}

/// The model name a streamed file would establish and the counterpart file
/// that has to be present for it, if the file can name a model.
pub fn streaming_candidate(name: &str, loose: bool) -> (r: Option<(String, String)>)
    ensures
        r matches Some(p) ==> streaming_candidate_spec(name@, loose) == Some((p.0@, p.1@)),
        r is None ==> streaming_candidate_spec(name@, loose) is None,
{
    let n = chars_of(name);
    let ext = lower_extension_exec(&n);
    let base = basename_or_self_exec(&n);
    if eq_str(&ext, "ytd") && !ends_with_str(&base, "+hi.ytd") {
        let b = trim_end_seq_exec(&base, &chars_of(".ytd"));
        let mut c = crate::text::slice_chars(&b, 0, b.len());
        push_str(&mut c, ".yft");
        assert(c@ =~= b@ + ".yft"@);
        Some((string_of(&b), string_of(&c)))
    } else if eq_str(&ext, "yft") && !(loose && ends_with_str(&base, "_hi.yft")) {
        let b = trim_end_seq_exec(&base, &chars_of(".yft"));
        let mut c = crate::text::slice_chars(&b, 0, b.len());
        push_str(&mut c, ".ytd");
        assert(c@ =~= b@ + ".ytd"@);
        Some((string_of(&b), string_of(&c)))
    } else {
        None
    }
}


/// The resource-relative destination of a route, in ASCII lower case (two
/// files with the same key would land on the same file).
pub open spec fn route_key(r: RouteView) -> Option<Seq<char>> {
    match r {
        RouteView::Stream { rel, .. } => Some(ascii_lower("stream/"@ + rel)),
        RouteView::Sfx { rel } => Some(ascii_lower("sfx/"@ + rel)),
        RouteView::AudioConfig { file_name } => Some(ascii_lower("audioconfig/"@ + file_name)),
        RouteView::Data { manifest_path, .. } => Some(ascii_lower(manifest_path)),
        RouteView::Omitted => None,
    }
}

/// A loose file's path inside the extracted archive (the path itself when it
/// is not under the extraction folder).
pub open spec fn rel_or_self(root: Seq<char>, file: Seq<char>) -> Seq<char> {
    match rel_path_spec(root, file) {
        Some(r) => r,
        None => file,
    }
}

pub open spec fn loose_route(root: Seq<char>, file: Seq<char>, resource_name: Seq<char>, combined: bool) -> RouteView {
    route_spec(file, rel_or_self(root, file), resource_name, combined, true)
}

/// File `i` is copied: it goes somewhere, and among the files that would land
/// on the same destination it has the fewest path components (the first such
/// when several tie).
pub open spec fn loose_chosen(root: Seq<char>, files: Seq<Seq<char>>, resource_name: Seq<char>, combined: bool, i: int) -> bool {
    let key = route_key(loose_route(root, files[i], resource_name, combined));
    &&& 0 <= i < files.len()
    &&& key is Some
    &&& forall|j: int|
        0 <= j < files.len() && route_key(loose_route(root, #[trigger] files[j], resource_name, combined)) == key
            ==> components(files[i]).len() < components(files[j]).len() || (components(files[i]).len()
            == components(files[j]).len() && i <= j)
}

fn route_key_exec(r: &FileRoute) -> (k: Option<Vec<char>>)
    ensures
        k matches Some(v) ==> route_key(r@) == Some(v@),
        k is None ==> route_key(r@) is None,
{
    match r {
        FileRoute::Stream { rel, .. } => {
            let mut v = chars_of("stream/");
            push_str(&mut v, rel.as_str());
            Some(lower_ascii(&v))
        },
        FileRoute::Sfx { rel } => {
            let mut v = chars_of("sfx/");
            push_str(&mut v, rel.as_str());
            Some(lower_ascii(&v))
        },
        FileRoute::AudioConfig { file_name } => {
            let mut v = chars_of("audioconfig/");
            push_str(&mut v, file_name.as_str());
            Some(lower_ascii(&v))
        },
        FileRoute::Data { manifest_path, .. } => {
            let v = chars_of(manifest_path.as_str());
            Some(lower_ascii(&v))
        },
        FileRoute::Omitted => None,
    }
}

fn same_key(a: &Option<Vec<char>>, b: &Option<Vec<char>>) -> (r: bool)
    ensures
        r == (opt_chars(*a) == opt_chars(*b)),
{
    match (a, b) {
        (Some(x), Some(y)) => crate::text::eq_chars(x, y),
        (None, None) => true,
        _ => false,
    }
}

pub open spec fn opt_chars(o: Option<Vec<char>>) -> Option<Seq<char>> {
    match o {
        Some(v) => Some(v@),
        None => None,
    }
}

fn loose_route_exec(extract_root: &str, file: &str, resource_name: &str, combined: bool) -> (r: FileRoute)
    ensures
        r@ == loose_route(extract_root@, file@, resource_name@, combined),
{
    let rel = match rel_path_posix(extract_root, file) {
        Some(r) => r,
        None => file.to_string(),
    };
    route_file(file, rel.as_str(), resource_name, combined, true)
}

/// The loose files found in an extracted archive that go into the resource,
/// each with its route: of files landing on the same destination only the
/// shallowest is kept. Indices are into `files`, in increasing order.
pub fn plan_loose_files(extract_root: &str, files: &[String], resource_name: &str, combined: bool) -> (r: Vec<(usize, FileRoute)>)
    ensures
        ({
            let fv = files@.map_values(|s: String| s@);
            &&& forall|k: int| 0 <= k < r@.len() ==> loose_chosen(extract_root@, fv, resource_name@, combined, #[trigger] r@[k].0 as int)
            &&& forall|k: int| 0 <= k < r@.len() ==> (#[trigger] r@[k]).1@ == loose_route(extract_root@, fv[r@[k].0 as int], resource_name@, combined)
            &&& forall|k: int, l: int| 0 <= k < l < r@.len() ==> (#[trigger] r@[k]).0 < (#[trigger] r@[l]).0
            &&& forall|i: int| loose_chosen(extract_root@, fv, resource_name@, combined, i) ==> exists|k: int| 0 <= k < r@.len() && (#[trigger] r@[k]).0 == i
        }),
{
    let ghost fv = files@.map_values(|s: String| s@);
    let mut keys: Vec<Option<Vec<char>>> = Vec::new();
    let mut depths: Vec<usize> = Vec::new();
    let mut i: usize = 0;
    while i < files.len()
        invariant
            i <= files.len(),
            fv == files@.map_values(|s: String| s@),
            keys@.len() == i,
            depths@.len() == i,
            forall|m: int| 0 <= m < i ==> opt_chars(#[trigger] keys@[m]) == route_key(loose_route(extract_root@, fv[m], resource_name@, combined)),
            forall|m: int| 0 <= m < i ==> #[trigger] depths@[m] == components(fv[m]).len(),
        decreases files.len() - i,
    {
        let f = files[i].as_str();
        let route = loose_route_exec(extract_root, f, resource_name, combined);
        let key = route_key_exec(&route);
        let d = components_exec(&chars_of(f)).len();
        assert(fv[i as int] == files@[i as int]@);
        keys.push(key);
        depths.push(d);
        i = i + 1;
    }
    let mut out: Vec<(usize, FileRoute)> = Vec::new();
    let mut i: usize = 0;
    while i < files.len()
        invariant
            i <= files.len(),
            fv == files@.map_values(|s: String| s@),
            keys@.len() == files@.len(),
            depths@.len() == files@.len(),
            forall|m: int| 0 <= m < files@.len() ==> opt_chars(#[trigger] keys@[m]) == route_key(loose_route(extract_root@, fv[m], resource_name@, combined)),
            forall|m: int| 0 <= m < files@.len() ==> #[trigger] depths@[m] == components(fv[m]).len(),
            forall|k: int| 0 <= k < out@.len() ==> loose_chosen(extract_root@, fv, resource_name@, combined, #[trigger] out@[k].0 as int),
            forall|k: int| 0 <= k < out@.len() ==> (#[trigger] out@[k]).1@ == loose_route(extract_root@, fv[out@[k].0 as int], resource_name@, combined),
            forall|k: int| 0 <= k < out@.len() ==> (#[trigger] out@[k]).0 < i,
            forall|k: int, l: int| 0 <= k < l < out@.len() ==> (#[trigger] out@[k]).0 < (#[trigger] out@[l]).0,
            forall|m: int| 0 <= m < i && loose_chosen(extract_root@, fv, resource_name@, combined, m) ==> exists|k: int| 0 <= k < out@.len() && (#[trigger] out@[k]).0 == m,
        decreases files.len() - i,
    {
        let ghost key_i = route_key(loose_route(extract_root@, fv[i as int], resource_name@, combined));
        let ghost out0 = out@;
        if keys[i].is_some() {
            let mut best = true;
            let mut j: usize = 0;
            while j < files.len()
                invariant
                    i < files.len(),
                    j <= files.len(),
                    keys@.len() == files@.len(),
                    depths@.len() == files@.len(),
                    key_i == route_key(loose_route(extract_root@, fv[i as int], resource_name@, combined)),
                    forall|m: int| 0 <= m < files@.len() ==> opt_chars(#[trigger] keys@[m]) == route_key(loose_route(extract_root@, fv[m], resource_name@, combined)),
                    forall|m: int| 0 <= m < files@.len() ==> #[trigger] depths@[m] == components(fv[m]).len(),
                    best <==> forall|q: int| 0 <= q < j && route_key(loose_route(extract_root@, #[trigger] fv[q], resource_name@, combined)) == key_i
                        ==> components(fv[i as int]).len() < components(fv[q]).len() || (components(fv[i as int]).len() == components(fv[q]).len() && i <= q),
                decreases files.len() - j,
            {
                assert(opt_chars(keys@[j as int]) == route_key(loose_route(extract_root@, fv[j as int], resource_name@, combined)));
                assert(opt_chars(keys@[i as int]) == key_i);
                if same_key(&keys[j], &keys[i]) {
                    if !(depths[i] < depths[j] || (depths[i] == depths[j] && i <= j)) {
                        best = false;
                    }
                }
                j = j + 1;
            }
            if best {
                let route = loose_route_exec(extract_root, files[i].as_str(), resource_name, combined);
                assert(fv[i as int] == files@[i as int]@);
                assert(loose_chosen(extract_root@, fv, resource_name@, combined, i as int));
                out.push((i, route));
                assert(out@[out@.len() - 1].0 == i);
            } else {
                assert(!loose_chosen(extract_root@, fv, resource_name@, combined, i as int));
            }
        } else {
            assert(!loose_chosen(extract_root@, fv, resource_name@, combined, i as int));
        }
        assert forall|m: int| 0 <= m < i + 1 && loose_chosen(extract_root@, fv, resource_name@, combined, m) implies exists|k: int| 0 <= k < out@.len() && (#[trigger] out@[k]).0 == m by {
            if m < i {
                let k = choose|k: int| 0 <= k < out0.len() && (#[trigger] out0[k]).0 == m;
                assert(out@[k] == out0[k]);
            } else {
                assert(out@[out@.len() - 1].0 == m);
            }
        }
        i = i + 1;
    }
    out
}


/// Two different loose files that are both copied never land on the same
/// destination, so no copied file overwrites another.
pub proof fn lemma_loose_destinations_distinct(root: Seq<char>, files: Seq<Seq<char>>, resource_name: Seq<char>, combined: bool, i: int, j: int)
    requires
        loose_chosen(root, files, resource_name, combined, i),
        loose_chosen(root, files, resource_name, combined, j),
        i != j,
    ensures
        route_key(loose_route(root, files[i], resource_name, combined)) != route_key(
            loose_route(root, files[j], resource_name, combined),
        ),
{
}

/// What happens when the folder a resource is renamed to already exists.
#[derive(Debug, Clone, Copy, PartialEq, Eq, Structural)]
pub enum RenameStep {
    /// The target is free: rename.
    Rename,
    /// Remove the existing target, then rename.
    ReplaceExisting,
    /// Keep the current name.
    KeepName,
}

/// An existing target is replaced only when overwriting was asked for.
pub open spec fn rename_step_spec(target_exists: bool, overwrite: bool) -> RenameStep {
    if !target_exists {
        RenameStep::Rename
    } else if overwrite {
        RenameStep::ReplaceExisting
    } else {
        RenameStep::KeepName
    }
}

pub fn rename_step(target_exists: bool, overwrite: bool) -> (r: RenameStep)
    ensures
        r == rename_step_spec(target_exists, overwrite),
{
    if !target_exists {
        RenameStep::Rename
    } else if overwrite {
        RenameStep::ReplaceExisting
    } else {
        RenameStep::KeepName
    }
}

/// A data file enters the resource only with the FiveM mounter that its
/// resource-relative path maps to.
pub proof fn lemma_data_only_with_known_mounter(name: Seq<char>, rel: Seq<char>, resource_name: Seq<char>, combined: bool, loose: bool)
    ensures
        route_spec(name, rel, resource_name, combined, loose) matches RouteView::Data { manifest_path, directive, .. }
            ==> directive_spec(manifest_path) == Some(directive),
{
}

/// A data file routed into the resource is registered under one of the
/// supported `data_file` types.
pub proof fn lemma_data_route_known_mounter(name: Seq<char>, rel: Seq<char>, resource_name: Seq<char>, combined: bool, loose: bool)
    ensures
        route_spec(name, rel, resource_name, combined, loose) matches RouteView::Data { directive, .. }
            ==> crate::manifest::known_mounter(directive),
{
    crate::manifest::lemma_directive_is_known(
        path_join(data_prefix(resource_name, combined), semantic_data_path(rel)),
    );
}

/// No streamable format's extension starts with anything but `y`.
proof fn lemma_stream_formats_start_with_y(e: Seq<char>)
    requires
        e.len() > 0,
        e[0] != 'y',
    ensures
        stream_subfolder(e) is None,
{
    reveal_strlit("yft");
    reveal_strlit("ytd");
    reveal_strlit("ydr");
    reveal_strlit("ydd");
    reveal_strlit("ycd");
    reveal_strlit("ymap");
    reveal_strlit("ytyp");
    reveal_strlit("ybn");
    reveal_strlit("ynd");
    reveal_strlit("ynv");
    assert(e != "yft"@ && e != "ytd"@ && e != "ydr"@ && e != "ydd"@ && e != "ycd"@) by {
        assert("yft"@[0] == 'y' && "ytd"@[0] == 'y' && "ydr"@[0] == 'y' && "ydd"@[0] == 'y' && "ycd"@[0] == 'y');
    }
    assert(e != "ymap"@ && e != "ytyp"@ && e != "ybn"@ && e != "ynd"@ && e != "ynv"@) by {
        assert("ymap"@[0] == 'y' && "ytyp"@[0] == 'y' && "ybn"@[0] == 'y' && "ynd"@[0] == 'y' && "ynv"@[0] == 'y');
    }
}

/// Audio configuration files go into `audioconfig/` under their own file
/// name: always when their extension is `.rel` or `.dat`, whether found loose
/// in the package or inside an archive, and `.nametable` ones when found
/// inside an archive.
pub proof fn lemma_audio_configs_routed(name: Seq<char>, rel: Seq<char>, resource_name: Seq<char>, combined: bool, loose: bool)
    ensures
        is_audio_config_spec(name) && (lower_extension(name) == "rel"@ || lower_extension(name) == "dat"@)
            ==> route_spec(name, rel, resource_name, combined, loose) == (RouteView::AudioConfig {
            file_name: audio_config_basename_spec(name),
        }),
        is_audio_config_spec(name) && !loose && lower_extension(name) == "nametable"@ ==> route_spec(
            name,
            rel,
            resource_name,
            combined,
            loose,
        ) == (RouteView::AudioConfig { file_name: audio_config_basename_spec(name) }),
{
    reveal_strlit("rel");
    reveal_strlit("dat");
    reveal_strlit("nametable");
    reveal_strlit("awc");
    let e = lower_extension(name);
    if e == "rel"@ || e == "dat"@ || e == "nametable"@ {
        lemma_stream_formats_start_with_y(e);
        assert(e != "awc"@) by {
            assert("awc"@[0] == 'a');
        }
    }
}

/// A streamed asset enters the resource only when its extension is a format
/// that can be streamed, and it lands in the stream folder of its kind under
/// its own file name.
pub proof fn lemma_stream_only_known_formats(name: Seq<char>, rel: Seq<char>, resource_name: Seq<char>, combined: bool, loose: bool)
    ensures
        route_spec(name, rel, resource_name, combined, loose) matches RouteView::Stream { rel: r, .. }
            ==> (stream_subfolder(lower_extension(name)) matches Some(sub) && r == sub + basename_or_self(name)),
{
}

/// The stream folder of each streamable kind: map assets (`ymap`, `ytyp`,
/// `ybn`) under `maps/`, path and navigation assets (`ynd`, `ynv`) under
/// `paths/`, models, textures and clips at the top of `stream/`.
pub proof fn lemma_stream_folders()
    ensures
        stream_subfolder("ymap"@) == Some("maps/"@),
        stream_subfolder("ytyp"@) == Some("maps/"@),
        stream_subfolder("ybn"@) == Some("maps/"@),
        stream_subfolder("ynd"@) == Some("paths/"@),
        stream_subfolder("ynv"@) == Some("paths/"@),
        stream_subfolder("yft"@) == Some(Seq::<char>::empty()),
        stream_subfolder("ytd"@) == Some(Seq::<char>::empty()),
        stream_subfolder("ydr"@) == Some(Seq::<char>::empty()),
        stream_subfolder("ydd"@) == Some(Seq::<char>::empty()),
        stream_subfolder("ycd"@) == Some(Seq::<char>::empty()),
        stream_subfolder("awc"@) is None,
        stream_subfolder("meta"@) is None,
{
    reveal_strlit("ymap");
    reveal_strlit("ytyp");
    reveal_strlit("ybn");
    reveal_strlit("ynd");
    reveal_strlit("ynv");
    reveal_strlit("yft");
    reveal_strlit("ytd");
    reveal_strlit("ydr");
    reveal_strlit("ydd");
    reveal_strlit("ycd");
    reveal_strlit("awc");
    reveal_strlit("meta");
    assert("ymap"@ != "ytyp"@) by { assert("ymap"@[1] != "ytyp"@[1]); }
    assert("awc"@ != "ymap"@) by { assert("awc"@.len() != "ymap"@.len()); }
    assert("awc"@ != "ytyp"@) by { assert("awc"@.len() != "ytyp"@.len()); }
    assert("meta"@ != "yft"@) by { assert("meta"@.len() != "yft"@.len()); }
    assert("meta"@ != "ytd"@) by { assert("meta"@.len() != "ytd"@.len()); }
    assert("meta"@ != "ydr"@) by { assert("meta"@.len() != "ydr"@.len()); }
    assert("meta"@ != "ydd"@) by { assert("meta"@.len() != "ydd"@.len()); }
    assert("meta"@ != "ycd"@) by { assert("meta"@.len() != "ycd"@.len()); }
    assert("meta"@ != "ybn"@) by { assert("meta"@.len() != "ybn"@.len()); }
    assert("meta"@ != "ynd"@) by { assert("meta"@.len() != "ynd"@.len()); }
    assert("meta"@ != "ynv"@) by { assert("meta"@.len() != "ynv"@.len()); }
    assert("ynd"@ != "ymap"@) by { assert("ynd"@.len() != "ymap"@.len()); }
    assert("ynd"@ != "ytyp"@) by { assert("ynd"@.len() != "ytyp"@.len()); }
    assert("ynv"@ != "ymap"@) by { assert("ynv"@.len() != "ymap"@.len()); }
    assert("ynv"@ != "ytyp"@) by { assert("ynv"@.len() != "ytyp"@.len()); }
    assert("ybn"@ != "ymap"@) by { assert("ybn"@.len() != "ymap"@.len()); }
    assert("ybn"@ != "ytyp"@) by { assert("ybn"@.len() != "ytyp"@.len()); }
    assert("ymap"@ != "yft"@) by { assert("ymap"@.len() != "yft"@.len()); }
    assert("ymap"@ != "ytd"@) by { assert("ymap"@.len() != "ytd"@.len()); }
    assert("ymap"@ != "ydr"@) by { assert("ymap"@.len() != "ydr"@.len()); }
    assert("ymap"@ != "ydd"@) by { assert("ymap"@.len() != "ydd"@.len()); }
    assert("ymap"@ != "ycd"@) by { assert("ymap"@.len() != "ycd"@.len()); }
    assert("ytyp"@ != "yft"@) by { assert("ytyp"@.len() != "yft"@.len()); }
    assert("ytyp"@ != "ytd"@) by { assert("ytyp"@.len() != "ytd"@.len()); }
    assert("ytyp"@ != "ydr"@) by { assert("ytyp"@.len() != "ydr"@.len()); }
    assert("ytyp"@ != "ydd"@) by { assert("ytyp"@.len() != "ydd"@.len()); }
    assert("ytyp"@ != "ycd"@) by { assert("ytyp"@.len() != "ycd"@.len()); }
    assert("ybn"@ != "yft"@) by { assert("ybn"@[1] != "yft"@[1]); }
    assert("ybn"@ != "ytd"@) by { assert("ybn"@[1] != "ytd"@[1]); }
    assert("ybn"@ != "ydr"@) by { assert("ybn"@[1] != "ydr"@[1]); }
    assert("ybn"@ != "ydd"@) by { assert("ybn"@[1] != "ydd"@[1]); }
    assert("ybn"@ != "ycd"@) by { assert("ybn"@[1] != "ycd"@[1]); }
    assert("ynd"@ != "yft"@) by { assert("ynd"@[1] != "yft"@[1]); }
    assert("ynd"@ != "ytd"@) by { assert("ynd"@[1] != "ytd"@[1]); }
    assert("ynd"@ != "ydr"@) by { assert("ynd"@[1] != "ydr"@[1]); }
    assert("ynd"@ != "ydd"@) by { assert("ynd"@[1] != "ydd"@[1]); }
    assert("ynd"@ != "ycd"@) by { assert("ynd"@[1] != "ycd"@[1]); }
    assert("ynd"@ != "ybn"@) by { assert("ynd"@[1] != "ybn"@[1]); }
    assert("ynv"@ != "yft"@) by { assert("ynv"@[1] != "yft"@[1]); }
    assert("ynv"@ != "ytd"@) by { assert("ynv"@[1] != "ytd"@[1]); }
    assert("ynv"@ != "ydr"@) by { assert("ynv"@[1] != "ydr"@[1]); }
    assert("ynv"@ != "ydd"@) by { assert("ynv"@[1] != "ydd"@[1]); }
    assert("ynv"@ != "ycd"@) by { assert("ynv"@[1] != "ycd"@[1]); }
    assert("ynv"@ != "ybn"@) by { assert("ynv"@[1] != "ybn"@[1]); }
    assert("ytd"@ != "yft"@) by { assert("ytd"@[1] != "yft"@[1]); }
    assert("ydr"@ != "yft"@) by { assert("ydr"@[1] != "yft"@[1]); }
    assert("ydr"@ != "ytd"@) by { assert("ydr"@[1] != "ytd"@[1]); }
    assert("ydd"@ != "yft"@) by { assert("ydd"@[1] != "yft"@[1]); }
    assert("ydd"@ != "ytd"@) by { assert("ydd"@[1] != "ytd"@[1]); }
    assert("ydd"@ != "ydr"@) by { assert("ydd"@[2] != "ydr"@[2]); }
    assert("ycd"@ != "yft"@) by { assert("ycd"@[1] != "yft"@[1]); }
    assert("ycd"@ != "ytd"@) by { assert("ycd"@[1] != "ytd"@[1]); }
    assert("ycd"@ != "ydr"@) by { assert("ycd"@[1] != "ydr"@[1]); }
    assert("ycd"@ != "ydd"@) by { assert("ycd"@[1] != "ydd"@[1]); }
    assert("awc"@ != "yft"@) by { assert("awc"@[0] != "yft"@[0]); }
    assert("awc"@ != "ytd"@) by { assert("awc"@[0] != "ytd"@[0]); }
    assert("awc"@ != "ydr"@) by { assert("awc"@[0] != "ydr"@[0]); }
    assert("awc"@ != "ydd"@) by { assert("awc"@[0] != "ydd"@[0]); }
    assert("awc"@ != "ycd"@) by { assert("awc"@[0] != "ycd"@[0]); }
    assert("awc"@ != "ybn"@) by { assert("awc"@[0] != "ybn"@[0]); }
    assert("awc"@ != "ynd"@) by { assert("awc"@[0] != "ynd"@[0]); }
    assert("awc"@ != "ynv"@) by { assert("awc"@[0] != "ynv"@[0]); }
    assert("meta"@ != "ymap"@) by { assert("meta"@[0] != "ymap"@[0]); }
    assert("meta"@ != "ytyp"@) by { assert("meta"@[0] != "ytyp"@[0]); }
}

/// A file that is neither a streamable asset, nor a wavepack, nor an audio
/// config, and whose data path maps to no mounter, is left out.
pub proof fn lemma_unknown_files_omitted(name: Seq<char>, rel: Seq<char>, resource_name: Seq<char>, combined: bool, loose: bool)
    requires
        stream_subfolder(lower_extension(name)) is None,
        lower_extension(name) != "awc"@,
        !is_audio_config_spec(name),
        directive_spec(path_join(data_prefix(resource_name, combined), semantic_data_path(rel))) is None,
    ensures
        route_spec(name, rel, resource_name, combined, loose) == RouteView::Omitted,
{
}

} // verus!
