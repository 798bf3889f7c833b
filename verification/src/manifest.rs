//! `fxmanifest.lua` generation and the table of FiveM `data_file` mounters.
use vstd::prelude::*;
use crate::path::{extension_exec, extension_of, file_name, file_name_exec, path_extension, path_extension_exec};
use crate::sorted::{insert_sorted, lemma_sorted_elements, sorted_elements, sorted_strict, views};
use crate::text::{
    ascii_lower, ascii_lower_char, is_ascii_upper, chars_of, concat, contains, contains_str, eq_str, lemma_concat_all,
    lemma_concat_contains, lemma_concat_take, lemma_contains_within, lower_ascii, matches_at, push_all, push_str, replace_char, replace_char_spec, string_of,
};

verus! {

/// A data file written into the resource and, when supported, its FiveM mounter.
#[derive(Clone, Debug, Eq, PartialEq)]
pub struct DataFile {
    /// Path relative to the resource root, using `/`.
    pub path: String,
    pub directive: &'static str,
}

/// Audio layout discovered after extraction (paths use `/` and are relative to the resource root).
pub struct AudioManifest {
    pub wavepacks: Vec<String>,
    pub physical_files: Vec<String>,
    pub game_sound_data: Vec<(String, String)>,
}

/// The path, with `\` turned into `/`, in ASCII lower case.
pub open spec fn normalized_lower(path: Seq<char>) -> Seq<char> {
    ascii_lower(replace_char_spec(path, '\\', '/'))
}

/// Mounters recognized by the exact (lower-case) file name alone.
pub open spec fn basename_directive(base: Seq<char>) -> Option<Seq<char>> {
    if base == "carcols.meta"@ {
        Some("CARCOLS_FILE"@)
    } else if base == "carvariations.meta"@ {
        Some("VEHICLE_VARIATION_FILE"@)
    } else if base == "dlctext.meta"@ {
        Some("DLCTEXT_FILE"@)
    } else if base == "contentunlocks.meta"@ {
        Some("CARCONTENTUNLOCKS_FILE"@)
    } else if base == "vehiclemodelsets.meta"@ {
        Some("AMBIENT_VEHICLE_MODEL_SET_FILE"@)
    } else if base == "ambientpedmodelsets.meta"@ {
        Some("AMBIENT_PED_MODEL_SET_FILE"@)
    } else if base == "propsets.meta"@ {
        Some("AMBIENT_PROP_MODEL_SET_FILE"@)
    } else if base == "conditionalanims.meta"@ {
        Some("CONDITIONAL_ANIMS_FILE"@)
    } else if base == "loadouts.meta"@ {
        Some("LOADOUTS_FILE"@)
    } else if base == "taskdata.meta"@ {
        Some("PED_TASK_DATA_FILE"@)
    } else if base == "pedcomponentsets.meta"@ {
        Some("PED_COMPONENT_SETS_FILE"@)
    } else if base == "pedperception.meta"@ {
        Some("PED_PERCEPTION_FILE"@)
    } else if base == "pedpersonality.ymt"@ {
        Some("PED_PERSONALITY_FILE"@)
    } else if base == "popgroups.ymt"@ {
        Some("DLC_POP_GROUPS"@)
    } else if base == "popcycle.dat"@ {
        Some("POPSCHED_FILE"@)
    } else if base == "zonebind.ymt"@ {
        Some("ZONEBIND_FILE"@)
    } else {
        None
    }
}

/// The FiveM `data_file` type of a resource-relative data path, if it has one.
pub open spec fn directive_spec(path: Seq<char>) -> Option<Seq<char>> {
    let lower = normalized_lower(path);
    match file_name(lower) {
        None => None,
        Some(base) => match extension_of(base) {
            None => None,
            Some(ext) => {
                let meta = ext == "meta"@;
                if meta && (contains(lower, "/handling/"@) || base == "handling.meta"@) {
                    Some("HANDLING_FILE"@)
                } else if meta && (contains(lower, "/vehiclelayouts/"@) || base
                    == "vehiclelayouts.meta"@) {
                    Some("VEHICLE_LAYOUTS_FILE"@)
                } else if meta && (contains(lower, "/vehicles/"@) || base == "vehicles.meta"@) {
                    Some("VEHICLE_METADATA_FILE"@)
                } else if meta && (contains(lower, "/peds/"@) || base == "peds.meta"@) {
                    Some("PED_METADATA_FILE"@)
                } else if (ext == "ymt"@ || ext == "xml"@) && contains(lower, "/clipsets/"@) {
                    Some("CLIP_SETS_FILE"@)
                } else {
                    basename_directive(base)
                }
            },
        },
    }
}

/// The FiveM `data_file` types this converter registers data files under.
pub open spec fn known_mounter(d: Seq<char>) -> bool {
    d == "HANDLING_FILE"@ || d == "VEHICLE_METADATA_FILE"@ || d == "VEHICLE_LAYOUTS_FILE"@ || d
        == "CARCOLS_FILE"@ || d == "VEHICLE_VARIATION_FILE"@ || d == "DLCTEXT_FILE"@ || d
        == "CARCONTENTUNLOCKS_FILE"@ || d == "PED_METADATA_FILE"@ || d == "PED_PERSONALITY_FILE"@
        || d == "DLC_POP_GROUPS"@ || d == "POPSCHED_FILE"@ || d == "ZONEBIND_FILE"@ || d
        == "AMBIENT_PED_MODEL_SET_FILE"@ || d == "AMBIENT_VEHICLE_MODEL_SET_FILE"@ || d
        == "AMBIENT_PROP_MODEL_SET_FILE"@ || d == "CONDITIONAL_ANIMS_FILE"@ || d
        == "CLIP_SETS_FILE"@ || d == "LOADOUTS_FILE"@ || d == "PED_TASK_DATA_FILE"@ || d
        == "PED_COMPONENT_SETS_FILE"@ || d == "PED_PERCEPTION_FILE"@
}

/// Every mounter that a data path is given is one of the supported
/// `data_file` types.
pub proof fn lemma_directive_is_known(path: Seq<char>)
    ensures
        directive_spec(path) matches Some(d) ==> known_mounter(d),
{
}

proof fn lemma_meta_name(b: Seq<char>)
    requires
        b.len() > 5,
        b[b.len() - 5] == '.',
        b[b.len() - 4] == 'm',
        b[b.len() - 3] == 'e',
        b[b.len() - 2] == 't',
        b[b.len() - 1] == 'a',
    ensures
        extension_of(b) == Some("meta"@),
{
    reveal_strlit("meta");
    crate::path::lemma_extension_at(b, b.len() - 5);
    assert(b.subrange(b.len() - 4, b.len() as int) =~= "meta"@);
}

/// The vehicle and ped data files named by their file name or by the folder
/// they sit in: a `handling.meta` is always mounted as handling, a
/// `vehiclelayouts.meta` as vehicle layouts unless it sits in a `handling`
/// folder, a `vehicles.meta` as vehicle metadata unless it sits in a
/// `handling` or `vehiclelayouts` folder, and a `peds.meta` as ped metadata
/// unless it sits in one of those or in a `vehicles` folder. Case and the
/// kind of slash do not matter.
pub proof fn lemma_mounter_by_file_name(path: Seq<char>)
    ensures
        file_name(normalized_lower(path)) == Some("handling.meta"@) ==> directive_spec(path) == Some(
            "HANDLING_FILE"@,
        ),
        file_name(normalized_lower(path)) == Some("vehiclelayouts.meta"@) && !contains(
            normalized_lower(path),
            "/handling/"@,
        ) ==> directive_spec(path) == Some("VEHICLE_LAYOUTS_FILE"@),
        file_name(normalized_lower(path)) == Some("vehicles.meta"@) && !contains(
            normalized_lower(path),
            "/handling/"@,
        ) && !contains(normalized_lower(path), "/vehiclelayouts/"@) ==> directive_spec(path) == Some(
            "VEHICLE_METADATA_FILE"@,
        ),
        file_name(normalized_lower(path)) == Some("peds.meta"@) && !contains(
            normalized_lower(path),
            "/handling/"@,
        ) && !contains(normalized_lower(path), "/vehiclelayouts/"@) && !contains(
            normalized_lower(path),
            "/vehicles/"@,
        ) ==> directive_spec(path) == Some("PED_METADATA_FILE"@),
{
    reveal_strlit("handling.meta");
    reveal_strlit("vehiclelayouts.meta");
    reveal_strlit("vehicles.meta");
    reveal_strlit("peds.meta");
    reveal_strlit("meta");
    let base = file_name(normalized_lower(path));
    if base == Some("handling.meta"@) {
        lemma_meta_name("handling.meta"@);
    }
    if base == Some("vehiclelayouts.meta"@) {
        lemma_meta_name("vehiclelayouts.meta"@);
        assert("vehiclelayouts.meta"@.len() != "handling.meta"@.len());
    }
    if base == Some("vehicles.meta"@) {
        lemma_meta_name("vehicles.meta"@);
        assert("vehicles.meta"@[0] != "handling.meta"@[0]);
        assert("vehicles.meta"@.len() != "vehiclelayouts.meta"@.len());
    }
    if base == Some("peds.meta"@) {
        lemma_meta_name("peds.meta"@);
        assert("peds.meta"@.len() != "handling.meta"@.len());
        assert("peds.meta"@.len() != "vehiclelayouts.meta"@.len());
        assert("peds.meta"@.len() != "vehicles.meta"@.len());
    }
}

pub proof fn lemma_lower_char_idempotent(c: char)
    ensures
        ascii_lower_char(ascii_lower_char(c)) == ascii_lower_char(c),
        ascii_lower_char(c) == '\\' <==> c == '\\',
{
    if is_ascii_upper(c) {
        let u = c as u32;
        assert(65 <= u <= 90);
        assert(((u + 32) as char) as u32 == u + 32);
    }
}

/// Normalizing a path twice gives what normalizing it once gives.
pub proof fn lemma_normalized_lower_idempotent(path: Seq<char>)
    ensures
        normalized_lower(normalized_lower(path)) == normalized_lower(path),
{
    let n = normalized_lower(path);
    let nn = normalized_lower(n);
    assert forall|k: int| 0 <= k < n.len() implies nn[k] == n[k] by {
        let c = path[k];
        let r = if c == '\\' { '/' } else { c };
        lemma_lower_char_idempotent(r);
        assert(n[k] == ascii_lower_char(r));
        assert(n[k] != '\\');
    }
    assert(nn =~= n);
}

/// The mounter of a data path does not depend on letter case or on whether
/// the path uses `\` or `/` between its parts.
pub proof fn lemma_directive_ignores_case_and_separators(path: Seq<char>)
    ensures
        directive_spec(path) == directive_spec(normalized_lower(path)),
{
    lemma_normalized_lower_idempotent(path);
}

fn basename_directive_exec(base: &[char]) -> (r: Option<&'static str>)
    ensures
        r matches Some(d) ==> basename_directive(base@) == Some(d@),
        r is None ==> basename_directive(base@) is None,
{
    if eq_str(base, "carcols.meta") {
        Some("CARCOLS_FILE")
    } else if eq_str(base, "carvariations.meta") {
        Some("VEHICLE_VARIATION_FILE")
    } else if eq_str(base, "dlctext.meta") {
        Some("DLCTEXT_FILE")
    } else if eq_str(base, "contentunlocks.meta") {
        Some("CARCONTENTUNLOCKS_FILE")
    } else if eq_str(base, "vehiclemodelsets.meta") {
        Some("AMBIENT_VEHICLE_MODEL_SET_FILE")
    } else if eq_str(base, "ambientpedmodelsets.meta") {
        Some("AMBIENT_PED_MODEL_SET_FILE")
    } else if eq_str(base, "propsets.meta") {
        Some("AMBIENT_PROP_MODEL_SET_FILE")
    } else if eq_str(base, "conditionalanims.meta") {
        Some("CONDITIONAL_ANIMS_FILE")
    } else if eq_str(base, "loadouts.meta") {
        Some("LOADOUTS_FILE")
    } else if eq_str(base, "taskdata.meta") {
        Some("PED_TASK_DATA_FILE")
    } else if eq_str(base, "pedcomponentsets.meta") {
        Some("PED_COMPONENT_SETS_FILE")
    } else if eq_str(base, "pedperception.meta") {
        Some("PED_PERCEPTION_FILE")
    } else if eq_str(base, "pedpersonality.ymt") {
        Some("PED_PERSONALITY_FILE")
    } else if eq_str(base, "popgroups.ymt") {
        Some("DLC_POP_GROUPS")
    } else if eq_str(base, "popcycle.dat") {
        Some("POPSCHED_FILE")
    } else if eq_str(base, "zonebind.ymt") {
        Some("ZONEBIND_FILE")
    } else {
        None
    }
}

/// Infer the FiveM data_file type from a resource-relative data path.
pub fn directive_for(path: &str) -> (r: Option<&'static str>)
    ensures
        r matches Some(d) ==> directive_spec(path@) == Some(d@),
        r is None ==> directive_spec(path@) is None,
{
    let p = chars_of(path);
    let slashed = replace_char(&p, '\\', '/');
    let lower = lower_ascii(&slashed);
    let base = match file_name_exec(&lower) {
        Some(b) => b,
        None => return None,
    };
    let ext = match extension_exec(&base) {
        Some(e) => e,
        None => return None,
    };
    let meta = eq_str(&ext, "meta");
    if meta && (contains_str(&lower, "/handling/") || eq_str(&base, "handling.meta")) {
        Some("HANDLING_FILE")
    } else if meta && (contains_str(&lower, "/vehiclelayouts/") || eq_str(
        &base,
        "vehiclelayouts.meta",
    )) {
        Some("VEHICLE_LAYOUTS_FILE")
    } else if meta && (contains_str(&lower, "/vehicles/") || eq_str(&base, "vehicles.meta")) {
        Some("VEHICLE_METADATA_FILE")
    } else if meta && (contains_str(&lower, "/peds/") || eq_str(&base, "peds.meta")) {
        Some("PED_METADATA_FILE")
    } else if (eq_str(&ext, "ymt") || eq_str(&ext, "xml")) && contains_str(&lower, "/clipsets/") {
        Some("CLIP_SETS_FILE")
    } else {
        basename_directive_exec(&base)
    }
}


/// `s.replace('\'', "\\'")`.
pub open spec fn escape_single_quotes(s: Seq<char>) -> Seq<char>
    decreases s.len(),
{
    if s.len() == 0 {
        seq![]
    } else {
        escape_single_quotes(s.drop_last()) + if s.last() == '\'' {
            seq!['\\', '\'']
        } else {
            seq![s.last()]
        }
    }
}

/// A Lua string literal holding `s`: double quotes when `s` has a single quote
/// and no double quote, otherwise single quotes with `'` escaped.
pub open spec fn quote_lua_spec(s: Seq<char>) -> Seq<char> {
    if s.contains('\'') && !s.contains('"') {
        seq!['"'] + s + seq!['"']
    } else {
        seq!['\''] + escape_single_quotes(s) + seq!['\'']
    }
}

/// Reads the body of a Lua short string from index `i` of `lit` up to the
/// closing quote `q`, which has to be the last character of `lit`. A backslash
/// escapes a quote or a backslash; a raw line break ends the literal in error.
pub open spec fn lua_read_from(lit: Seq<char>, q: char, i: int) -> Option<Seq<char>>
    decreases lit.len() - i,
{
    if i < 0 || i >= lit.len() {
        None
    } else if lit[i] == q {
        if i == lit.len() - 1 {
            Some(seq![])
        } else {
            None
        }
    } else if lit[i] == '\n' || lit[i] == '\r' {
        None
    } else if lit[i] == '\\' {
        if i + 1 < lit.len() && (lit[i + 1] == '\'' || lit[i + 1] == '"' || lit[i + 1] == '\\') {
            match lua_read_from(lit, q, i + 2) {
                Some(rest) => Some(seq![lit[i + 1]] + rest),
                None => None,
            }
        } else {
            None
        }
    } else {
        match lua_read_from(lit, q, i + 1) {
            Some(rest) => Some(seq![lit[i]] + rest),
            None => None,
        }
    }
}

/// The value of `lit` read as a Lua short string literal (in `'` or `"`), if
/// it is one.
pub open spec fn lua_string_value(lit: Seq<char>) -> Option<Seq<char>> {
    if lit.len() >= 2 && (lit[0] == '\'' || lit[0] == '"') {
        lua_read_from(lit, lit[0], 1)
    } else {
        None
    }
}

proof fn lemma_read_plain(x: Seq<char>, t: Seq<char>, q: char)
    requires
        x.len() >= 1,
        !t.contains(q),
        !t.contains('\\'),
        !t.contains('\n'),
        !t.contains('\r'),
    ensures
        lua_read_from(x + t + seq![q], q, x.len() as int) == Some(t),
    decreases t.len(),
{
    let lit = x + t + seq![q];
    if t.len() == 0 {
        assert(lit[x.len() as int] == q);
    } else {
        let x2 = x + seq![t[0]];
        let t2 = t.skip(1);
        assert(lit =~= x2 + t2 + seq![q]);
        assert(lit[x.len() as int] == t[0]);
        assert(!t.contains(q) ==> t[0] != q);
        assert forall|c: char| t2.contains(c) implies t.contains(c) by {
            let k = choose|k: int| 0 <= k < t2.len() && t2[k] == c;
            assert(t[k + 1] == c);
        }
        lemma_read_plain(x2, t2, q);
        assert(seq![t[0]] + t2 =~= t);
    }
}

proof fn lemma_escape_concat(a: Seq<char>, b: Seq<char>)
    ensures
        escape_single_quotes(a + b) == escape_single_quotes(a) + escape_single_quotes(b),
    decreases b.len(),
{
    if b.len() == 0 {
        assert(a + b =~= a);
        assert(escape_single_quotes(a) + escape_single_quotes(b) =~= escape_single_quotes(a));
    } else {
        assert((a + b).drop_last() =~= a + b.drop_last());
        assert((a + b).last() == b.last());
        lemma_escape_concat(a, b.drop_last());
        assert(escape_single_quotes(a + b) =~= escape_single_quotes(a) + escape_single_quotes(b));
    }
}

proof fn lemma_read_escaped(x: Seq<char>, s: Seq<char>)
    requires
        x.len() >= 1,
        !s.contains('\\'),
        !s.contains('\n'),
        !s.contains('\r'),
    ensures
        lua_read_from(x + escape_single_quotes(s) + seq!['\''], '\'', x.len() as int) == Some(s),
    decreases s.len(),
{
    let lit = x + escape_single_quotes(s) + seq!['\''];
    if s.len() == 0 {
        assert(lit[x.len() as int] == '\'');
    } else {
        let c = s[0];
        let s2 = s.skip(1);
        assert(s =~= seq![c] + s2);
        lemma_escape_concat(seq![c], s2);
        assert(seq![c].drop_last() =~= Seq::<char>::empty());
        assert forall|d: char| s2.contains(d) implies s.contains(d) by {
            let k = choose|k: int| 0 <= k < s2.len() && s2[k] == d;
            assert(s[k + 1] == d);
        }
        assert(s.contains(c)) by {
            assert(s[0] == c);
        }
        let e1 = escape_single_quotes(seq![c]);
        assert(seq![c].last() == c);
        assert(escape_single_quotes(seq![c].drop_last()) =~= Seq::<char>::empty());
        if c == '\'' {
            assert(e1 =~= seq!['\\', '\'']);
            let x2 = x + e1;
            assert(lit =~= x2 + escape_single_quotes(s2) + seq!['\'']);
            assert(lit[x.len() as int] == '\\');
            assert(lit[x.len() + 1int] == '\'');
            lemma_read_escaped(x2, s2);
        } else {
            assert(e1 =~= seq![c]);
            let x2 = x + e1;
            assert(lit =~= x2 + escape_single_quotes(s2) + seq!['\'']);
            assert(lit[x.len() as int] == c);
            lemma_read_escaped(x2, s2);
        }
    }
}

/// Read back as Lua, the quoted form of a string is that string. This holds
/// for strings without backslashes and line breaks, which the quoting leaves
/// as they are.
pub proof fn lemma_quote_lua_reads_back(s: Seq<char>)
    requires
        !s.contains('\\'),
        !s.contains('\n'),
        !s.contains('\r'),
    ensures
        lua_string_value(quote_lua_spec(s)) == Some(s),
{
    let lit = quote_lua_spec(s);
    if s.contains('\'') && !s.contains('"') {
        assert(lit =~= seq!['"'] + s + seq!['"']);
        lemma_read_plain(seq!['"'], s, '"');
    } else {
        assert(lit =~= seq!['\''] + escape_single_quotes(s) + seq!['\'']);
        lemma_read_escaped(seq!['\''], s);
    }
}

fn contains_char(s: &[char], c: char) -> (r: bool)
    ensures
        r == s@.contains(c),
{
    let mut i: usize = 0;
    while i < s.len()
        invariant
            i <= s.len(),
            forall|k: int| 0 <= k < i ==> s@[k] != c,
        decreases s.len() - i,
    {
        if s[i] == c {
            return true;
        }
        i = i + 1;
    }
    false
}

/// Appends `quote_lua(s)` to `out`.
fn push_quoted(out: &mut Vec<char>, s: &[char])
    ensures
        final(out)@ == old(out)@ + quote_lua_spec(s@),
{
    if contains_char(s, '\'') && !contains_char(s, '"') {
        out.push('"');
        push_all(out, s);
        out.push('"');
        assert(out@ =~= old(out)@ + quote_lua_spec(s@));
    } else {
        let ghost o = out@;
        out.push('\'');
        let mut i: usize = 0;
        while i < s.len()
            invariant
                i <= s.len(),
                out@ == o + seq!['\''] + escape_single_quotes(s@.take(i as int)),
            decreases s.len() - i,
        {
            let ghost before = out@;
            if s[i] == '\'' {
                out.push('\\');
                out.push('\'');
            } else {
                out.push(s[i]);
            }
            i = i + 1;
            assert(s@.take(i as int).drop_last() =~= s@.take(i - 1));
            assert(out@ =~= o + seq!['\''] + escape_single_quotes(s@.take(i as int)));
        }
        assert(s@.take(i as int) =~= s@);
        out.push('\'');
        assert(out@ =~= o + quote_lua_spec(s@));
    }
}

/// Quote a string as a Lua literal for `fxmanifest.lua`.
pub fn quote_lua(s: &str) -> (r: String)
    ensures
        r@ == quote_lua_spec(s@),
{
    let cs = chars_of(s);
    let mut out: Vec<char> = Vec::new();
    push_quoted(&mut out, &cs);
    assert(out@ =~= quote_lua_spec(s@));
    string_of(&out)
}

pub open spec fn audio_is_empty(audio: AudioManifest) -> bool {
    audio.wavepacks@.len() == 0 && audio.game_sound_data@.len() == 0
}

impl AudioManifest {
    /// No wavepacks and no game/sound data pairs (physical files alone do not count).
    pub fn is_empty(&self) -> (r: bool)
        ensures
            r == audio_is_empty(*self),
    {
        self.wavepacks.len() == 0 && self.game_sound_data.len() == 0
    }
}

pub open spec fn opt_view(o: Option<&str>) -> Option<Seq<char>> {
    match o {
        Some(s) => Some(s@),
        None => None,
    }
}

pub open spec fn header_text() -> Seq<char> {
    "fx_version 'cerulean'\ngame 'gta5'\n"@
}

pub open spec fn description_text(d: Option<Seq<char>>) -> Seq<char> {
    match d {
        Some(d) => "\ndescription "@ + quote_lua_spec(d) + "\n"@,
        None => seq![],
    }
}

pub open spec fn url_text(u: Option<Seq<char>>) -> Seq<char> {
    match u {
        Some(u) => "url "@ + quote_lua_spec(u) + "\n"@,
        None => seq![],
    }
}

/// The extensions of the data files' paths.
pub open spec fn data_extensions(files: Seq<DataFile>) -> Set<Seq<char>> {
    Set::new(
        |e: Seq<char>|
            exists|i: int| 0 <= i < files.len() && path_extension(files[i].path@) == Some(e),
    )
}

pub open spec fn extension_line(e: Seq<char>) -> Seq<char> {
    "    'data/**/*."@ + e + "',\n"@
}

pub open spec fn physical_line(p: Seq<char>) -> Seq<char> {
    "    "@ + quote_lua_spec(p) + ",\n"@
}

/// The `files { ... }` block: one glob per data extension (in `str` order), then
/// the audio globs and physical audio config files.
pub open spec fn files_block(files: Seq<DataFile>, audio: AudioManifest) -> Seq<char> {
    let has_audio = !audio_is_empty(audio);
    if files.len() > 0 || has_audio {
        "\nfiles {\n"@ + concat(
            sorted_elements(data_extensions(files)).map_values(|e: Seq<char>| extension_line(e)),
        ) + (if has_audio {
            "    'sfx/**/*.awc',\n"@ + concat(
                audio.physical_files@.map_values(|p: String| physical_line(p@)),
            )
        } else {
            seq![]
        }) + "}\n"@
    } else {
        seq![]
    }
}

pub open spec fn data_file_line(f: DataFile) -> Seq<char> {
    "\ndata_file '"@ + f.directive@ + "' "@ + quote_lua_spec(f.path@)
}

pub open spec fn data_file_block(files: Seq<DataFile>) -> Seq<char> {
    concat(files.map_values(|f: DataFile| data_file_line(f))) + if files.len() > 0 {
        "\n"@
    } else {
        seq![]
    }
}

pub open spec fn game_sound_lines(pair: (String, String)) -> Seq<char> {
    "\ndata_file 'AUDIO_GAMEDATA' "@ + quote_lua_spec(pair.0@) + "\ndata_file 'AUDIO_SOUNDDATA' "@
        + quote_lua_spec(pair.1@)
}

pub open spec fn wavepack_line(w: Seq<char>) -> Seq<char> {
    "\ndata_file 'AUDIO_WAVEPACK' "@ + quote_lua_spec(w)
}

/// The audio `data_file` directives: game/sound pairs, then wavepacks.
pub open spec fn audio_block(audio: AudioManifest) -> Seq<char> {
    concat(audio.game_sound_data@.map_values(|p: (String, String)| game_sound_lines(p))) + concat(
        audio.wavepacks@.map_values(|w: String| wavepack_line(w@)),
    ) + if audio.game_sound_data@.len() > 0 || audio.wavepacks@.len() > 0 {
        "\n"@
    } else {
        seq![]
    }
}

/// The whole `fxmanifest.lua`.
pub open spec fn manifest_text(
    files: Seq<DataFile>,
    audio: AudioManifest,
    description: Option<Seq<char>>,
    url: Option<Seq<char>>,
) -> Seq<char> {
    header_text() + description_text(description) + url_text(url) + files_block(files, audio)
        + data_file_block(files) + audio_block(audio)
}

/// Sorted, distinct extensions of the data files' paths.
fn collect_extensions(data_files: &[DataFile]) -> (exts: Vec<Vec<char>>)
    ensures
        views(exts@) == sorted_elements(data_extensions(data_files@)),
{
    let mut exts: Vec<Vec<char>> = Vec::new();
    let mut i: usize = 0;
    assert(views(exts@).to_set() =~= data_extensions(data_files@.take(0)));
    while i < data_files.len()
        invariant
            i <= data_files.len(),
            sorted_strict(views(exts@)),
            views(exts@).to_set() == data_extensions(data_files@.take(i as int)),
        decreases data_files.len() - i,
    {
        let ghost before = data_extensions(data_files@.take(i as int));
        let p = chars_of(data_files[i].path.as_str());
        let e = path_extension_exec(&p);
        let ghost after = data_extensions(data_files@.take(i + 1));
        let ghost ft1 = data_files@.take(i + 1);
        let ghost ft0 = data_files@.take(i as int);
        match e {
            Some(e) => {
                let ghost ev = e@;
                insert_sorted(&mut exts, e);
                assert(after =~= before.insert(ev)) by {
                    assert forall|x: Seq<char>| after.contains(x) implies before.insert(ev).contains(
                        x,
                    ) by {
                        let k = choose|k: int|
                            0 <= k < i + 1 && path_extension(#[trigger] ft1[k].path@) == Some(x);
                        if k < i {
                            assert(data_files@.take(i as int)[k] == data_files@.take(i + 1)[k]);
                        }
                    }
                    assert forall|x: Seq<char>| before.insert(ev).contains(x) implies after.contains(
                        x,
                    ) by {
                        if x == ev {
                            assert(data_files@.take(i + 1)[i as int] == data_files@[i as int]);
                        } else {
                            let k = choose|k: int|
                                0 <= k < i && path_extension(#[trigger] ft0[k].path@) == Some(x);
                            assert(data_files@.take(i as int)[k] == data_files@.take(i + 1)[k]);
                        }
                    }
                }
            },
            None => {
                assert(after =~= before) by {
                    assert forall|x: Seq<char>| after.contains(x) implies before.contains(x) by {
                        let k = choose|k: int|
                            0 <= k < i + 1 && path_extension(#[trigger] ft1[k].path@) == Some(x);
                        if k < i {
                            assert(data_files@.take(i as int)[k] == data_files@.take(i + 1)[k]);
                        } else {
                            assert(data_files@.take(i + 1)[k] == data_files@[i as int]);
                        }
                    }
                    assert forall|x: Seq<char>| before.contains(x) implies after.contains(x) by {
                        let k = choose|k: int|
                            0 <= k < i && path_extension(#[trigger] ft0[k].path@) == Some(x);
                        assert(data_files@.take(i as int)[k] == data_files@.take(i + 1)[k]);
                    }
                }
            },
        }
        i = i + 1;
    }
    assert(data_files@.take(i as int) =~= data_files@);
    proof {
        lemma_sorted_elements(views(exts@), data_extensions(data_files@));
    }
    exts
}


fn push_files_block(out: &mut Vec<char>, data_files: &[DataFile], audio: &AudioManifest)
    ensures
        final(out)@ == old(out)@ + files_block(data_files@, *audio),
{
    let has_audio = !audio.is_empty();
    if !(data_files.len() > 0 || has_audio) {
        assert(out@ =~= old(out)@ + files_block(data_files@, *audio));
        return;
    }
    let ghost o = out@;
    push_str(out, "\nfiles {\n");
    let exts = collect_extensions(data_files);
    let ghost eparts = views(exts@).map_values(|e: Seq<char>| extension_line(e));
    let ghost o1 = out@;
    let mut k: usize = 0;
    while k < exts.len()
        invariant
            k <= exts.len(),
            eparts == views(exts@).map_values(|e: Seq<char>| extension_line(e)),
            out@ == o1 + concat(eparts.take(k as int)),
        decreases exts.len() - k,
    {
        proof {
            lemma_concat_take(eparts, k as int);
        }
        push_str(out, "    'data/**/*.");
        push_all(out, &exts[k]);
        push_str(out, "',\n");
        k = k + 1;
        assert(out@ =~= o1 + concat(eparts.take(k as int)));
    }
    proof {
        lemma_concat_all(eparts);
    }
    let ghost o2 = out@;
    if has_audio {
        push_str(out, "    'sfx/**/*.awc',\n");
        let ghost pparts = audio.physical_files@.map_values(|p: String| physical_line(p@));
        let ghost o3 = out@;
        let mut j: usize = 0;
        while j < audio.physical_files.len()
            invariant
                j <= audio.physical_files.len(),
                pparts == audio.physical_files@.map_values(|p: String| physical_line(p@)),
                out@ == o3 + concat(pparts.take(j as int)),
            decreases audio.physical_files.len() - j,
        {
            proof {
                lemma_concat_take(pparts, j as int);
            }
            push_str(out, "    ");
            let cs = chars_of(audio.physical_files[j].as_str());
            push_quoted(out, &cs);
            push_str(out, ",\n");
            j = j + 1;
            assert(out@ =~= o3 + concat(pparts.take(j as int)));
        }
        proof {
            lemma_concat_all(pparts);
        }
    }
    let ghost o4 = out@;
    push_str(out, "}\n");
    assert(out@ =~= o + files_block(data_files@, *audio));
}

fn push_data_directives(out: &mut Vec<char>, data_files: &[DataFile])
    ensures
        final(out)@ == old(out)@ + data_file_block(data_files@),
{
    let ghost o = out@;
    let ghost parts = data_files@.map_values(|f: DataFile| data_file_line(f));
    let mut i: usize = 0;
    while i < data_files.len()
        invariant
            i <= data_files.len(),
            parts == data_files@.map_values(|f: DataFile| data_file_line(f)),
            out@ == o + concat(parts.take(i as int)),
        decreases data_files.len() - i,
    {
        proof {
            lemma_concat_take(parts, i as int);
        }
        push_str(out, "\ndata_file '");
        push_str(out, data_files[i].directive);
        push_str(out, "' ");
        let cs = chars_of(data_files[i].path.as_str());
        push_quoted(out, &cs);
        i = i + 1;
        assert(out@ =~= o + concat(parts.take(i as int)));
    }
    proof {
        lemma_concat_all(parts);
    }
    if data_files.len() > 0 {
        out.push('\n');
        proof {
            reveal_strlit("\n");
        }
    }
    assert(out@ =~= o + data_file_block(data_files@));
}

/// Appends the audio `data_file` directives: each game/sound pair, then each wavepack.
fn append_audio_directives(out: &mut Vec<char>, audio: &AudioManifest)
    ensures
        final(out)@ == old(out)@ + audio_block(*audio),
{
    let ghost o = out@;
    let ghost gparts = audio.game_sound_data@.map_values(|p: (String, String)| game_sound_lines(p));
    let mut i: usize = 0;
    while i < audio.game_sound_data.len()
        invariant
            i <= audio.game_sound_data.len(),
            gparts == audio.game_sound_data@.map_values(
                |p: (String, String)| game_sound_lines(p),
            ),
            out@ == o + concat(gparts.take(i as int)),
        decreases audio.game_sound_data.len() - i,
    {
        proof {
            lemma_concat_take(gparts, i as int);
        }
        push_str(out, "\ndata_file 'AUDIO_GAMEDATA' ");
        let g = chars_of(audio.game_sound_data[i].0.as_str());
        push_quoted(out, &g);
        push_str(out, "\ndata_file 'AUDIO_SOUNDDATA' ");
        let snd = chars_of(audio.game_sound_data[i].1.as_str());
        push_quoted(out, &snd);
        i = i + 1;
        assert(out@ =~= o + concat(gparts.take(i as int)));
    }
    proof {
        lemma_concat_all(gparts);
    }
    let ghost o1 = out@;
    let ghost wparts = audio.wavepacks@.map_values(|w: String| wavepack_line(w@));
    let mut j: usize = 0;
    while j < audio.wavepacks.len()
        invariant
            j <= audio.wavepacks.len(),
            wparts == audio.wavepacks@.map_values(|w: String| wavepack_line(w@)),
            out@ == o1 + concat(wparts.take(j as int)),
        decreases audio.wavepacks.len() - j,
    {
        proof {
            lemma_concat_take(wparts, j as int);
        }
        push_str(out, "\ndata_file 'AUDIO_WAVEPACK' ");
        let w = chars_of(audio.wavepacks[j].as_str());
        push_quoted(out, &w);
        j = j + 1;
        assert(out@ =~= o1 + concat(wparts.take(j as int)));
    }
    proof {
        lemma_concat_all(wparts);
    }
    if audio.game_sound_data.len() > 0 || audio.wavepacks.len() > 0 {
        out.push('\n');
        proof {
            reveal_strlit("\n");
        }
    }
    assert(out@ =~= o + audio_block(*audio));
}

fn generate(
    data_files: &[DataFile],
    audio: &AudioManifest,
    description: Option<&str>,
    url: Option<&str>,
) -> (r: String)
    ensures
        r@ == manifest_text(data_files@, *audio, opt_view(description), opt_view(url)),
{
    let mut out: Vec<char> = Vec::new();
    push_str(&mut out, "fx_version 'cerulean'\ngame 'gta5'\n");
    let ghost o0 = out@;
    match description {
        Some(d) => {
            push_str(&mut out, "\ndescription ");
            let cs = chars_of(d);
            push_quoted(&mut out, &cs);
            push_str(&mut out, "\n");
        },
        None => {},
    }
    assert(out@ =~= o0 + description_text(opt_view(description)));
    let ghost o1 = out@;
    match url {
        Some(u) => {
            push_str(&mut out, "url ");
            let cs = chars_of(u);
            push_quoted(&mut out, &cs);
            push_str(&mut out, "\n");
        },
        None => {},
    }
    assert(out@ =~= o1 + url_text(opt_view(url)));
    push_files_block(&mut out, data_files, audio);
    push_data_directives(&mut out, data_files);
    append_audio_directives(&mut out, audio);
    assert(out@ =~= manifest_text(data_files@, *audio, opt_view(description), opt_view(url)));
    string_of(&out)
}

/// Every data file given to the manifest is declared in it, with its mounter
/// and its quoted path.
pub proof fn lemma_manifest_declares_data_files(
    files: Seq<DataFile>,
    audio: AudioManifest,
    description: Option<Seq<char>>,
    url: Option<Seq<char>>,
    i: int,
)
    requires
        0 <= i < files.len(),
    ensures
        contains(manifest_text(files, audio, description, url), data_file_line(files[i])),
{
    let parts = files.map_values(|f: DataFile| data_file_line(f));
    lemma_concat_contains(parts, i);
    let nl: Seq<char> = if files.len() > 0 { "\n"@ } else { seq![] };
    lemma_contains_within(seq![], concat(parts), nl, data_file_line(files[i]));
    assert(seq![] + concat(parts) + nl =~= data_file_block(files));
    let before = header_text() + description_text(description) + url_text(url) + files_block(files, audio);
    lemma_contains_within(before, data_file_block(files), audio_block(audio), data_file_line(files[i]));
    assert(manifest_text(files, audio, description, url) =~= before + data_file_block(files) + audio_block(audio));
}

/// When the audio layout is not empty, the `files` block ships the
/// wavepacks (`sfx/**/*.awc`) and every physical audio config file, whatever
/// data files there are; the manifest holds that block.
pub proof fn lemma_files_block_ships_audio(
    files: Seq<DataFile>,
    audio: AudioManifest,
    description: Option<Seq<char>>,
    url: Option<Seq<char>>,
)
    requires
        !audio_is_empty(audio),
    ensures
        contains(files_block(files, audio), "    'sfx/**/*.awc',\n"@),
        contains(manifest_text(files, audio, description, url), "    'sfx/**/*.awc',\n"@),
        forall|i: int| 0 <= i < audio.physical_files@.len() ==> contains(
            files_block(files, audio),
            #[trigger] physical_line(audio.physical_files@[i]@),
        ),
        forall|i: int| 0 <= i < audio.physical_files@.len() ==> contains(
            manifest_text(files, audio, description, url),
            #[trigger] physical_line(audio.physical_files@[i]@),
        ),
{
    let sfx = "    'sfx/**/*.awc',\n"@;
    let pparts = audio.physical_files@.map_values(|p: String| physical_line(p@));
    let exts = concat(
        sorted_elements(data_extensions(files)).map_values(|e: Seq<char>| extension_line(e)),
    );
    let head = "\nfiles {\n"@ + exts;
    let tail = "}\n"@;
    let block = files_block(files, audio);
    assert(block =~= head + (sfx + concat(pparts)) + tail);
    let before = header_text() + description_text(description) + url_text(url);
    let after = data_file_block(files) + audio_block(audio);
    let text = manifest_text(files, audio, description, url);
    assert(text =~= before + block + after);
    assert(contains(sfx + concat(pparts), sfx)) by {
        assert((sfx + concat(pparts)).subrange(0, sfx.len() as int) =~= sfx);
        assert(matches_at(sfx + concat(pparts), sfx, 0));
    }
    lemma_contains_within(head, sfx + concat(pparts), tail, sfx);
    lemma_contains_within(before, block, after, sfx);
    assert forall|i: int| 0 <= i < audio.physical_files@.len() implies contains(
        block,
        #[trigger] physical_line(audio.physical_files@[i]@),
    ) && contains(text, physical_line(audio.physical_files@[i]@)) by {
        let pl = physical_line(audio.physical_files@[i]@);
        lemma_concat_contains(pparts, i);
        lemma_contains_within(sfx, concat(pparts), seq![], pl);
        assert(sfx + concat(pparts) + seq![] =~= sfx + concat(pparts));
        lemma_contains_within(head, sfx + concat(pparts), tail, pl);
        lemma_contains_within(before, block, after, pl);
    }
}

/// Every wavepack and every game/sound pair of the audio layout is declared
/// in the manifest.
pub proof fn lemma_manifest_declares_audio(
    files: Seq<DataFile>,
    audio: AudioManifest,
    description: Option<Seq<char>>,
    url: Option<Seq<char>>,
)
    ensures
        forall|i: int| 0 <= i < audio.wavepacks@.len() ==> contains(
            manifest_text(files, audio, description, url),
            #[trigger] wavepack_line(audio.wavepacks@[i]@),
        ),
        forall|i: int| 0 <= i < audio.game_sound_data@.len() ==> contains(
            manifest_text(files, audio, description, url),
            #[trigger] game_sound_lines(audio.game_sound_data@[i]),
        ),
{
    let text = manifest_text(files, audio, description, url);
    let before = header_text() + description_text(description) + url_text(url) + files_block(files, audio)
        + data_file_block(files);
    assert(text =~= before + audio_block(audio) + seq![]);
    let gparts = audio.game_sound_data@.map_values(|p: (String, String)| game_sound_lines(p));
    let wparts = audio.wavepacks@.map_values(|w: String| wavepack_line(w@));
    let nl: Seq<char> = if audio.game_sound_data@.len() > 0 || audio.wavepacks@.len() > 0 {
        "\n"@
    } else {
        seq![]
    };
    assert(audio_block(audio) =~= concat(gparts) + concat(wparts) + nl);
    assert forall|i: int| 0 <= i < audio.wavepacks@.len() implies contains(text, #[trigger] wavepack_line(audio.wavepacks@[i]@)) by {
        lemma_concat_contains(wparts, i);
        lemma_contains_within(concat(gparts), concat(wparts), nl, wavepack_line(audio.wavepacks@[i]@));
        lemma_contains_within(before, audio_block(audio), seq![], wavepack_line(audio.wavepacks@[i]@));
    }
    assert forall|i: int| 0 <= i < audio.game_sound_data@.len() implies contains(text, #[trigger] game_sound_lines(audio.game_sound_data@[i])) by {
        lemma_concat_contains(gparts, i);
        lemma_contains_within(seq![], concat(gparts), concat(wparts) + nl, game_sound_lines(audio.game_sound_data@[i]));
        assert(seq![] + concat(gparts) + (concat(wparts) + nl) =~= audio_block(audio));
        lemma_contains_within(before, audio_block(audio), seq![], game_sound_lines(audio.game_sound_data@[i]));
    }
}

/// `fxmanifest.lua` for a resource holding one mod.
pub fn single(
    data_files: &[DataFile],
    audio: &AudioManifest,
    description: Option<&str>,
    url: Option<&str>,
) -> (r: String)
    ensures
        r@ == manifest_text(data_files@, *audio, opt_view(description), opt_view(url)),
{
    generate(data_files, audio, description, url)
}

/// `fxmanifest.lua` for a resource combining several mods.
pub fn combined(
    data_files: &[DataFile],
    audio: &AudioManifest,
    description: Option<&str>,
    url: Option<&str>,
) -> (r: String)
    ensures
        r@ == manifest_text(data_files@, *audio, opt_view(description), opt_view(url)),
{
    generate(data_files, audio, description, url)
}

} // verus!
