//! Mod packages: which archive format a package is, and which of the files
//! it unpacked are RPF archives.
use vstd::prelude::*;
use crate::path::{path_extension, path_extension_exec};
use crate::rpf::{to_lowercase, unicode_lowercase};
use crate::text::{chars_of, eq_str, string_of};

verus! {

/// The package formats that can be unpacked.
#[derive(Debug, Clone, Copy, PartialEq, Eq, Structural)]
pub enum ArchiveFormat {
    Zip,
    SevenZip,
    Rar,
}

/// The format named by a lower-cased extension; any other extension is refused.
pub open spec fn format_of(ext_lower: Seq<char>) -> Option<ArchiveFormat> {
    if ext_lower == "zip"@ {
        Some(ArchiveFormat::Zip)
    } else if ext_lower == "7z"@ {
        Some(ArchiveFormat::SevenZip)
    } else if ext_lower == "rar"@ {
        Some(ArchiveFormat::Rar)
    } else {
        None
    }
}

/// The extension of a path, empty when it has none.
pub open spec fn extension_or_empty(p: Seq<char>) -> Seq<char> {
    match path_extension(p) {
        Some(e) => e,
        None => seq![],
    }
}

/// The format for a lower-cased extension; an unsupported one comes back as the error.
pub fn archive_format_of(ext_lower: &str) -> (r: Result<ArchiveFormat, String>)
    ensures
        r matches Ok(f) ==> format_of(ext_lower@) == Some(f),
        r matches Err(e) ==> format_of(ext_lower@) is None && e@ == ext_lower@,
{
    let e = chars_of(ext_lower);
    if eq_str(&e, "zip") {
        Ok(ArchiveFormat::Zip)
    } else if eq_str(&e, "7z") {
        Ok(ArchiveFormat::SevenZip)
    } else if eq_str(&e, "rar") {
        Ok(ArchiveFormat::Rar)
    } else {
        Err(string_of(&e))
    }
}

/// The format of a package, from its extension (compared in lower case); an
/// unsupported extension comes back, lower-cased, as the error.
pub fn archive_format(archive_path: &str) -> (r: Result<ArchiveFormat, String>)
    ensures
        r matches Ok(f) ==> format_of(unicode_lowercase(extension_or_empty(archive_path@))) == Some(f),
        r matches Err(e) ==> format_of(unicode_lowercase(extension_or_empty(archive_path@))) is None
            && e@ == unicode_lowercase(extension_or_empty(archive_path@)),
{
    let p = chars_of(archive_path);
    let ext = match path_extension_exec(&p) {
        Some(e) => e,
        None => Vec::new(),
    };
    assert(ext@ =~= extension_or_empty(archive_path@));
    let ext_s = string_of(&ext);
    let lower = to_lowercase(ext_s.as_str());
    archive_format_of(lower.as_str())
}

/// The paths whose extension is exactly `rpf`, in order.
pub open spec fn rpf_paths(paths: Seq<Seq<char>>) -> Seq<Seq<char>>
    decreases paths.len(),
{
    if paths.len() == 0 {
        seq![]
    } else if path_extension(paths.last()) == Some("rpf"@) {
        rpf_paths(paths.drop_last()).push(paths.last())
    } else {
        rpf_paths(paths.drop_last())
    }
}

/// The `.rpf` files among the files found in a directory tree.
pub fn find_rpf_files(paths: &[String]) -> (r: Vec<String>)
    ensures
        r@.map_values(|s: String| s@) == rpf_paths(paths@.map_values(|s: String| s@)),
{
    let ghost pv = paths@.map_values(|s: String| s@);
    let mut out: Vec<String> = Vec::new();
    let mut i: usize = 0;
    while i < paths.len()
        invariant
            i <= paths.len(),
            pv == paths@.map_values(|s: String| s@),
            out@.map_values(|s: String| s@) == rpf_paths(pv.take(i as int)),
        decreases paths.len() - i,
    {
        assert(pv.take(i + 1).drop_last() =~= pv.take(i as int));
        assert(pv.take(i + 1).last() == paths@[i as int]@);
        let ghost o0 = out@.map_values(|s: String| s@);
        let p = chars_of(paths[i].as_str());
        let is_rpf = match path_extension_exec(&p) {
            Some(e) => eq_str(&e, "rpf"),
            None => false,
        };
        if is_rpf {
            let s = string_of(&p);
            out.push(s);
            assert(out@.map_values(|s: String| s@) =~= o0.push(pv[i as int]));
        }
        i = i + 1;
    }
    assert(pv.take(i as int) =~= pv);
    out
}

} // verus!
