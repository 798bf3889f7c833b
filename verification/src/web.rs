//! Download links: telling archive URLs from mod pages, and finding the
//! download link in a mod page's HTML.
use vstd::prelude::*;
use crate::path::last_index_exec;
use crate::path::last_index_of;
use crate::rpf::{to_lowercase, unicode_lowercase};
use crate::text::{
    chars_of, contains, contains_str, ends_with, ends_with_str, find_from,
    find_from_exec, lemma_find_from_bounds, push_all, push_str, rfind, rfind_exec, slice_chars,
    starts_with, starts_with_str, string_of, trim_end_char, trim_end_char_exec,
};

verus! {

/// Infer a resource name from a URL (uses the last meaningful path segment).
pub open spec fn name_from_url_spec(url: Seq<char>) -> Option<Seq<char>> {
    let t = trim_end_char(url, '/');
    let seg = t.subrange(last_index_of(t, '/') + 1, t.len() as int);
    if seg.len() > 0 && seg != "download"@ {
        Some(seg)
    } else {
        None
    }
}

/// Infer a resource name from a URL (uses the last meaningful path segment).
pub fn name_from_url(url: &str) -> (r: Option<String>)
    ensures
        r matches Some(s) ==> name_from_url_spec(url@) == Some(s@),
        r is None ==> name_from_url_spec(url@) is None,
{
    let u = chars_of(url);
    let t = trim_end_char_exec(&u, '/');
    assert(t@.take(t.len() as int) =~= t@);
    let start = match last_index_exec(&t, t.len(), '/') {
        Some(i) => i + 1,
        None => 0,
    };
    proof {
        crate::path::lemma_last_index_of(t@, '/');
    }
    let seg = slice_chars(&t, start, t.len());
    if seg.len() > 0 && !crate::text::eq_str(&seg, "download") {
        Some(string_of(&seg))
    } else {
        None
    }
}

/// A name taken from a URL is one non-empty path segment: it holds no `/`
/// and is never `download`.
pub proof fn lemma_url_name_is_segment(url: Seq<char>)
    ensures
        name_from_url_spec(url) matches Some(n) ==> n.len() > 0 && n != "download"@ && !n.contains('/'),
{
    let t = trim_end_char(url, '/');
    let i = last_index_of(t, '/');
    crate::path::lemma_last_index_of(t, '/');
    let seg = t.subrange(i + 1, t.len() as int);
    assert forall|k: int| 0 <= k < seg.len() implies seg[k] != '/' by {
        assert(seg[k] == t[i + 1 + k]);
    }
}

/// The file name a download is saved under: the last `/`-separated segment
/// of the URL before its first `?`, or `download.zip` when that is empty.
pub open spec fn download_file_name_spec(url: Seq<char>) -> Seq<char> {
    let u = match find_from(url, seq!['?'], 0) {
        Some(j) => url.take(j),
        None => url,
    };
    let seg = u.subrange(last_index_of(u, '/') + 1, u.len() as int);
    if seg.len() > 0 {
        seg
    } else {
        "download.zip"@
    }
}

/// The file name a download from `url` is saved under in the cache folder.
pub fn download_file_name(url: &str) -> (r: String)
    ensures
        r@ == download_file_name_spec(url@),
{
    let cs = chars_of(url);
    let mut q: Vec<char> = Vec::new();
    q.push('?');
    assert(q@ =~= seq!['?']);
    proof {
        lemma_find_from_bounds(cs@, q@, 0);
    }
    let u = match find_from_exec(&cs, &q, 0) {
        Some(j) => slice_chars(&cs, 0, j),
        None => slice_chars(&cs, 0, cs.len()),
    };
    assert(u@ =~= match find_from(url@, seq!['?'], 0) {
        Some(j) => url@.take(j),
        None => url@,
    });
    assert(u@.take(u.len() as int) =~= u@);
    let start = match last_index_exec(&u, u.len(), '/') {
        Some(i) => i + 1,
        None => 0,
    };
    proof {
        crate::path::lemma_last_index_of(u@, '/');
    }
    let seg = slice_chars(&u, start, u.len());
    if seg.len() > 0 {
        string_of(&seg)
    } else {
        "download.zip".to_string()
    }
}

/// `url` begins with `http://` or `https://`.
pub open spec fn is_http_url_spec(url: Seq<char>) -> bool {
    starts_with(url, "https://"@) || starts_with(url, "http://"@)
}

/// Whether `input` is a web address rather than a local file.
pub fn is_http_url(input: &str) -> (r: bool)
    ensures
        r == is_http_url_spec(input@),
{
    let cs = chars_of(input);
    starts_with_str(&cs, "https://") || starts_with_str(&cs, "http://")
}

/// Where an archive is fetched from.
#[derive(Debug, Clone, PartialEq, Eq)]
pub enum DownloadTarget {
    /// A URL fetched as it is.
    Direct(String),
    /// A gta5-mods.com page whose download link has to be looked up first.
    Gta5ModsPage(String),
}

/// Direct file URLs (ending in .zip/.rar/.7z, compared on the lower-cased URL)
/// are fetched as they are; gta5-mods.com pages are resolved; any other URL
/// is fetched as it is.
pub open spec fn download_target_spec(url: Seq<char>, url_lower: Seq<char>) -> (bool, Seq<char>) {
    if ends_with(url_lower, ".zip"@) || ends_with(url_lower, ".rar"@) || ends_with(url_lower, ".7z"@) {
        (false, url)
    } else if contains(url, "gta5-mods.com"@) {
        (true, url)
    } else {
        (false, url)
    }
}

/// How a URL is fetched: a link whose lower-cased form ends in `.zip`, `.rar`
/// or `.7z` is always fetched directly, even on gta5-mods.com; another link
/// on gta5-mods.com is a mod page to resolve; any other link is fetched
/// directly. The URL itself is kept as it is.
pub proof fn lemma_download_target_rules(url: Seq<char>, url_lower: Seq<char>)
    ensures
        download_target_spec(url, url_lower).1 == url,
        ends_with(url_lower, ".zip"@) ==> download_target_spec(url, url_lower) == (false, url),
        ends_with(url_lower, ".rar"@) ==> download_target_spec(url, url_lower) == (false, url),
        ends_with(url_lower, ".7z"@) ==> download_target_spec(url, url_lower) == (false, url),
        !ends_with(url_lower, ".zip"@) && !ends_with(url_lower, ".rar"@) && !ends_with(url_lower, ".7z"@)
            && contains(url, "gta5-mods.com"@) ==> download_target_spec(url, url_lower) == (true, url),
        !contains(url, "gta5-mods.com"@) ==> download_target_spec(url, url_lower) == (false, url),
{
}

pub open spec fn target_view(t: DownloadTarget) -> (bool, Seq<char>) {
    match t {
        DownloadTarget::Direct(u) => (false, u@),
        DownloadTarget::Gta5ModsPage(u) => (true, u@),
    }
}

/// Decides how to fetch `url`, given its lower-cased form.
pub fn download_target(url: &str, url_lower: &str) -> (r: DownloadTarget)
    ensures
        target_view(r) == download_target_spec(url@, url_lower@),
{
    let l = chars_of(url_lower);
    let u = chars_of(url);
    if ends_with_str(&l, ".zip") || ends_with_str(&l, ".rar") || ends_with_str(&l, ".7z") {
        DownloadTarget::Direct(url.to_string())
    } else if contains_str(&u, "gta5-mods.com") {
        DownloadTarget::Gta5ModsPage(url.to_string())
    } else {
        DownloadTarget::Direct(url.to_string())
    }
}

/// If `url` points to a mod page (gta5-mods.com), it has to be resolved to
/// the actual file download URL; direct file URLs are returned unchanged.
pub fn resolve_download_url(url: &str) -> (r: DownloadTarget)
    ensures
        target_view(r) == download_target_spec(url@, unicode_lowercase(url@)),
{
    let lower = to_lowercase(url);
    download_target(url, lower.as_str())
}


pub open spec fn href_open() -> Seq<char> {
    seq!['h', 'r', 'e', 'f', '=', '"']
}

pub open spec fn quote_mark() -> Seq<char> {
    seq!['"']
}

/// The first non-empty `href="..."` value in `s` at or after `i`.
pub open spec fn tag_href_from(s: Seq<char>, i: int) -> Option<Seq<char>>
    decreases s.len() + 1 - i,
{
    if i < 0 {
        None
    } else {
        match find_from(s, href_open(), i) {
            None => None,
            Some(p) => {
                proof {
                    lemma_find_from_bounds(s, href_open(), i);
                }
                let st = p + 6;
                match find_from(s, quote_mark(), st) {
                    Some(e) if e > st => Some(s.subrange(st, e)),
                    _ => tag_href_from(s, st),
                }
            },
        }
    }
}

/// The first `href="..."` value in `s` at or after `i` that contains `/download`.
pub open spec fn download_href_from(s: Seq<char>, i: int) -> Option<Seq<char>>
    decreases s.len() + 1 - i,
{
    if i < 0 {
        None
    } else {
        match find_from(s, href_open(), i) {
            None => None,
            Some(p) => {
                proof {
                    lemma_find_from_bounds(s, href_open(), i);
                }
                let st = p + 6;
                match find_from(s, quote_mark(), st) {
                    Some(e) if contains(s.subrange(st, e), "/download"@) => Some(s.subrange(st, e)),
                    _ => download_href_from(s, st),
                }
            },
        }
    }
}

fn href_pattern() -> (r: Vec<char>)
    ensures
        r@ == href_open(),
{
    let mut v: Vec<char> = Vec::new();
    v.push('h');
    v.push('r');
    v.push('e');
    v.push('f');
    v.push('=');
    v.push('"');
    assert(v@ =~= href_open());
    v
}

fn quote_pattern() -> (r: Vec<char>)
    ensures
        r@ == quote_mark(),
{
    let mut v: Vec<char> = Vec::new();
    v.push('"');
    assert(v@ =~= quote_mark());
    v
}

/// The first non-empty `href` value in `s`, scanning `href="` occurrences.
fn tag_href_exec(s: &[char]) -> (r: Option<Vec<char>>)
    ensures
        r matches Some(v) ==> tag_href_from(s@, 0) == Some(v@),
        r is None ==> tag_href_from(s@, 0) is None,
{
    let hp = href_pattern();
    let qp = quote_pattern();
    let mut i: usize = 0;
    loop
        invariant
            hp@ == href_open(),
            qp@ == quote_mark(),
            tag_href_from(s@, 0) == tag_href_from(s@, i as int),
            i <= s.len(),
        decreases s.len() + 1 - i,
    {
        proof {
            lemma_find_from_bounds(s@, href_open(), i as int);
        }
        match find_from_exec(s, &hp, i) {
            None => {
                return None;
            },
            Some(p) => {
                let st = p + 6;
                match find_from_exec(s, &qp, st) {
                    Some(e) => {
                        proof {
                            lemma_find_from_bounds(s@, quote_mark(), st as int);
                        }
                        if e > st {
                            return Some(slice_chars(s, st, e));
                        }
                    },
                    None => {},
                }
                i = st;
            },
        }
    }
}

/// The first `href` value in `s` that contains `/download`.
fn download_href_exec(s: &[char]) -> (r: Option<Vec<char>>)
    ensures
        r matches Some(v) ==> download_href_from(s@, 0) == Some(v@),
        r is None ==> download_href_from(s@, 0) is None,
{
    let hp = href_pattern();
    let qp = quote_pattern();
    let mut i: usize = 0;
    loop
        invariant
            hp@ == href_open(),
            qp@ == quote_mark(),
            download_href_from(s@, 0) == download_href_from(s@, i as int),
            i <= s.len(),
        decreases s.len() + 1 - i,
    {
        proof {
            lemma_find_from_bounds(s@, href_open(), i as int);
        }
        match find_from_exec(s, &hp, i) {
            None => {
                return None;
            },
            Some(p) => {
                let st = p + 6;
                match find_from_exec(s, &qp, st) {
                    Some(e) => {
                        proof {
                            lemma_find_from_bounds(s@, quote_mark(), st as int);
                        }
                        let href = slice_chars(s, st, e);
                        if contains_str(&href, "/download") {
                            return Some(href);
                        }
                    },
                    None => {},
                }
                i = st;
            },
        }
    }
}

/// The first non-empty `href="..."` value of a tag.
pub fn extract_href_from_tag(tag_html: &str) -> (r: Option<String>)
    ensures
        r matches Some(v) ==> tag_href_from(tag_html@, 0) == Some(v@),
        r is None ==> tag_href_from(tag_html@, 0) is None,
{
    let cs = chars_of(tag_html);
    match tag_href_exec(&cs) {
        Some(v) => Some(string_of(&v)),
        None => None,
    }
}


/// The number of bytes `c` takes in UTF-8.
pub open spec fn utf8_width(c: char) -> int {
    if (c as u32) < 0x80 {
        1
    } else if (c as u32) < 0x800 {
        2
    } else if (c as u32) < 0x10000 {
        3
    } else {
        4
    }
}

/// The number of bytes `s` takes in UTF-8.
pub open spec fn utf8_len(s: Seq<char>) -> int
    decreases s.len(),
{
    if s.len() == 0 {
        0
    } else {
        utf8_len(s.drop_last()) + utf8_width(s.last())
    }
}

/// The index `c >= from` at which the characters from `a` on take exactly 300
/// bytes of UTF-8, if there is one (none when those bytes run past the end or
/// end inside a character).
pub open spec fn window_end_from(s: Seq<char>, a: int, c: int) -> Option<int>
    decreases s.len() + 1 - c,
{
    if c < a || c > s.len() || a < 0 {
        None
    } else if utf8_len(s.subrange(a, c)) == 300 {
        Some(c)
    } else if utf8_len(s.subrange(a, c)) > 300 || c == s.len() {
        None
    } else {
        window_end_from(s, a, c + 1)
    }
}

/// The start of the last `<a ` before the first `btn-download`, if any.
pub open spec fn btn_anchor(s: Seq<char>) -> Option<int> {
    match find_from(s, "btn-download"@, 0) {
        Some(pos) => rfind(s.take(pos), "<a "@),
        None => None,
    }
}

/// The 300-byte window after the download button's anchor exists.
pub open spec fn anchor_window_ok(s: Seq<char>) -> bool {
    match btn_anchor(s) {
        Some(a) => window_end_from(s, a, a) is Some,
        None => true,
    }
}

/// The primary download href of a page: the `href` of the anchor of the
/// `btn-download` button (looked for in the 300 bytes from its `<a `), else
/// the first `href` that contains `/download`.
pub open spec fn find_download_href_spec(s: Seq<char>) -> Option<Seq<char>> {
    let first = match btn_anchor(s) {
        Some(a) => match window_end_from(s, a, a) {
            Some(c) => tag_href_from(s.subrange(a, c), 0),
            None => None,
        },
        None => None,
    };
    match first {
        Some(h) => Some(h),
        None => download_href_from(s, 0),
    }
}

fn utf8_width_exec(c: char) -> (r: usize)
    ensures
        r == utf8_width(c),
{
    let u = c as u32;
    if u < 0x80 {
        1
    } else if u < 0x800 {
        2
    } else if u < 0x10000 {
        3
    } else {
        4
    }
}

fn window_end_exec(s: &[char], a: usize) -> (r: Option<usize>)
    requires
        a <= s.len(),
    ensures
        r matches Some(c) ==> window_end_from(s@, a as int, a as int) == Some(c as int) && a <= c
            <= s.len(),
        r is None ==> window_end_from(s@, a as int, a as int) is None,
{
    let mut c = a;
    let mut w: usize = 0;
    assert(s@.subrange(a as int, a as int) =~= Seq::<char>::empty());
    loop
        invariant
            a <= c <= s.len(),
            w == utf8_len(s@.subrange(a as int, c as int)),
            w <= 300,
            window_end_from(s@, a as int, a as int) == window_end_from(s@, a as int, c as int),
        decreases s.len() + 1 - c,
    {
        if w == 300 {
            return Some(c);
        }
        if c == s.len() {
            return None;
        }
        let nw = w + utf8_width_exec(s[c]);
        assert(s@.subrange(a as int, c + 1).drop_last() =~= s@.subrange(a as int, c as int));
        c = c + 1;
        if nw > 300 {
            return None;
        }
        w = nw;
    }
}

/// The anchor's 300-byte window exists (the download button, when present, has
/// 300 bytes of text from its `<a `, ending on a character boundary).
pub fn anchor_window_fits(html: &str) -> (r: bool)
    ensures
        r == anchor_window_ok(html@),
{
    let s = chars_of(html);
    match find_from_exec(&s, &chars_of("btn-download"), 0) {
        Some(pos) => {
            proof {
                lemma_find_from_bounds(s@, "btn-download"@, 0);
            }
            let before = slice_chars(&s, 0, pos);
            assert(before@ =~= s@.take(pos as int));
            match rfind_exec(&before, &chars_of("<a ")) {
                Some(a) => {
                    proof {
                        crate::text::lemma_rfind_upto_bounds(before@, "<a "@, before@.len() - "<a "@.len());
                    }
                    window_end_exec(&s, a).is_some()
                },
                None => true,
            }
        },
        None => true,
    }
}

/// Scan HTML for the primary download href: the `btn-download` anchor's
/// `href` when present, else the first `href` containing `/download`.
pub fn find_download_href(html: &str) -> (r: Option<String>)
    requires
        anchor_window_ok(html@),
    ensures
        r matches Some(v) ==> find_download_href_spec(html@) == Some(v@),
        r is None ==> find_download_href_spec(html@) is None,
{
    let s = chars_of(html);
    if let Some(pos) = find_from_exec(&s, &chars_of("btn-download"), 0) {
        proof {
            lemma_find_from_bounds(s@, "btn-download"@, 0);
        }
        let before = slice_chars(&s, 0, pos);
        assert(before@ =~= s@.take(pos as int));
        if let Some(a) = rfind_exec(&before, &chars_of("<a ")) {
            proof {
                crate::text::lemma_rfind_upto_bounds(before@, "<a "@, before@.len() - "<a "@.len());
            }
            match window_end_exec(&s, a) {
                Some(c) => {
                    let chunk = slice_chars(&s, a, c);
                    if let Some(h) = tag_href_exec(&chunk) {
                        return Some(string_of(&h));
                    }
                },
                None => {},
            }
        }
    }
    match download_href_exec(&s) {
        Some(h) => Some(string_of(&h)),
        None => None,
    }
}


/// Why a page URL has no base.
#[derive(Debug, Clone, Copy, PartialEq, Eq, Structural)]
pub enum UrlError {
    /// The URL starts with neither `https://` nor `http://`.
    MissingScheme,
}

/// The host part: everything up to the first `/` (or the end).
pub open spec fn host_of(rest: Seq<char>) -> Seq<char> {
    match find_from(rest, seq!['/'], 0) {
        Some(j) => rest.take(j),
        None => rest,
    }
}

/// `scheme://host` of a web address.
pub open spec fn url_base_spec(url: Seq<char>) -> Option<Seq<char>> {
    if starts_with(url, "https://"@) {
        Some("https"@ + "://"@ + host_of(url.skip(8)))
    } else if starts_with(url, "http://"@) {
        Some("http"@ + "://"@ + host_of(url.skip(7)))
    } else {
        None
    }
}

fn host_exec(s: &[char], from: usize) -> (r: Vec<char>)
    requires
        from <= s.len(),
    ensures
        r@ == host_of(s@.skip(from as int)),
{
    let rest = slice_chars(s, from, s.len());
    assert(rest@ =~= s@.skip(from as int));
    let mut sl: Vec<char> = Vec::new();
    sl.push('/');
    assert(sl@ =~= seq!['/']);
    proof {
        lemma_find_from_bounds(rest@, seq!['/'], 0);
    }
    match find_from_exec(&rest, &sl, 0) {
        Some(j) => slice_chars(&rest, 0, j),
        None => rest,
    }
}

/// `scheme://host` of a page URL, the base that relative links are joined to.
pub fn extract_url_base(url: &str) -> (r: Result<String, UrlError>)
    ensures
        r matches Ok(b) ==> url_base_spec(url@) == Some(b@),
        r is Err ==> url_base_spec(url@) is None,
{
    let u = chars_of(url);
    let mut out: Vec<char> = Vec::new();
    if starts_with_str(&u, "https://") {
        proof {
            reveal_strlit("https://");
        }
        let host = host_exec(&u, 8);
        push_str(&mut out, "https");
        push_str(&mut out, "://");
        push_all(&mut out, &host);
        Ok(string_of(&out))
    } else if starts_with_str(&u, "http://") {
        proof {
            reveal_strlit("http://");
        }
        let host = host_exec(&u, 7);
        push_str(&mut out, "http");
        push_str(&mut out, "://");
        push_all(&mut out, &host);
        Ok(string_of(&out))
    } else {
        Err(UrlError::MissingScheme)
    }
}

/// A link found on a page, made absolute: links starting with `http` are
/// kept, others are appended to the page's base.
pub open spec fn absolute_link(base: Seq<char>, href: Seq<char>) -> Seq<char> {
    if starts_with(href, "http"@) {
        href
    } else {
        base + href
    }
}

fn absolute_link_exec(base: &str, href: &[char]) -> (r: String)
    ensures
        r@ == absolute_link(base@, href@),
{
    if starts_with_str(href, "http") {
        string_of(href)
    } else {
        let mut out = chars_of(base);
        push_all(&mut out, href);
        string_of(&out)
    }
}

/// The download page of a mod page: the page's download link, or the page
/// URL (without trailing `/`) followed by `/download` when it has none.
pub open spec fn download_page_url_spec(page_url: Seq<char>, base: Seq<char>, mod_html: Seq<char>) -> Seq<char> {
    match find_download_href_spec(mod_html) {
        Some(h) => absolute_link(base, h),
        None => trim_end_char(page_url, '/') + "/download"@,
    }
}

/// Where the download page of a mod page is, given the mod page's HTML.
pub fn download_page_url(page_url: &str, base: &str, mod_html: &str) -> (r: String)
    requires
        anchor_window_ok(mod_html@),
    ensures
        r@ == download_page_url_spec(page_url@, base@, mod_html@),
{
    match find_download_href(mod_html) {
        Some(h) => {
            let hc = chars_of(h.as_str());
            absolute_link_exec(base, &hc)
        },
        None => {
            let p = chars_of(page_url);
            let mut t = trim_end_char_exec(&p, '/');
            push_str(&mut t, "/download");
            string_of(&t)
        },
    }
}

/// The file URL on a download page, if the page has a download link.
pub fn download_file_url(base: &str, download_html: &str) -> (r: Option<String>)
    requires
        anchor_window_ok(download_html@),
    ensures
        r matches Some(u) ==> find_download_href_spec(download_html@) matches Some(h) && u@
            == absolute_link(base@, h),
        r is None ==> find_download_href_spec(download_html@) is None,
{
    match find_download_href(download_html) {
        Some(h) => {
            let hc = chars_of(h.as_str());
            Some(absolute_link_exec(base, &hc))
        },
        None => None,
    }
}

} // verus!
