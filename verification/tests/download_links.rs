use rpf2fivem::web::download_file_name;
use rpf2fivem::web::{
    anchor_window_fits, download_file_url, download_page_url, download_target, extract_href_from_tag,
    extract_url_base, find_download_href, is_http_url, name_from_url, resolve_download_url,
    DownloadTarget, UrlError,
};

fn padded(html: &str) -> String {
    let mut s = html.to_string();
    s.push_str(&" ".repeat(400));
    s
}

#[test]
fn names_from_urls() {
    assert_eq!(
        name_from_url("https://www.gta5-mods.com/vehicles/example"),
        Some("example".to_string())
    );
    assert_eq!(
        name_from_url("https://www.gta5-mods.com/vehicles/example/"),
        Some("example".to_string())
    );
    assert_eq!(name_from_url("https://www.gta5-mods.com/vehicles/example/download"), None);
    assert_eq!(name_from_url(""), None);
    assert_eq!(name_from_url("///"), None);
    assert_eq!(name_from_url("abc"), Some("abc".to_string()));
}

#[test]
fn web_addresses() {
    assert!(is_http_url("https://a"));
    assert!(is_http_url("http://a"));
    assert!(!is_http_url("ftp://a"));
    assert!(!is_http_url("mod.zip"));
}

#[test]
fn download_targets() {
    assert_eq!(
        resolve_download_url("https://x.com/mod.ZIP"),
        DownloadTarget::Direct("https://x.com/mod.ZIP".to_string())
    );
    assert_eq!(
        resolve_download_url("https://www.gta5-mods.com/vehicles/example"),
        DownloadTarget::Gta5ModsPage("https://www.gta5-mods.com/vehicles/example".to_string())
    );
    assert_eq!(
        resolve_download_url("https://www.gta5-mods.com/files/x.7z"),
        DownloadTarget::Direct("https://www.gta5-mods.com/files/x.7z".to_string())
    );
    assert_eq!(
        resolve_download_url("https://other.com/file"),
        DownloadTarget::Direct("https://other.com/file".to_string())
    );
    assert_eq!(
        download_target("https://x/A.RAR", "https://x/a.rar"),
        DownloadTarget::Direct("https://x/A.RAR".to_string())
    );
}

#[test]
fn hrefs_in_tags() {
    assert_eq!(
        extract_href_from_tag("<a class=\"x\" href=\"\" href=\"/a\">"),
        Some("/a".to_string())
    );
    assert_eq!(extract_href_from_tag("<a href=\"/b\" href=\"/c\">"), Some("/b".to_string()));
    assert_eq!(extract_href_from_tag("<a>"), None);
    assert_eq!(extract_href_from_tag("<a href=\"/unclosed>"), None);
}

#[test]
fn download_button_is_preferred() {
    let html = padded(
        "<a href=\"/vehicles/x/download/1\">other</a><a href=\"/vehicles/x/download/5086\" class=\"btn btn-download\">Download</a>",
    );
    assert!(anchor_window_fits(&html));
    assert_eq!(find_download_href(&html), Some("/vehicles/x/download/5086".to_string()));
}

#[test]
fn first_download_link_without_button() {
    let html = "<a href=\"/home\">home</a> <a href=\"/vehicles/x/download\">get</a> <a href=\"/y/download\">";
    assert!(anchor_window_fits(html));
    assert_eq!(find_download_href(html), Some("/vehicles/x/download".to_string()));
    assert_eq!(find_download_href("<p>nothing</p>"), None);
}

#[test]
fn short_page_after_button_has_no_window() {
    assert!(!anchor_window_fits("<a href=\"/d/download\" class=\"btn-download\">"));
    assert!(anchor_window_fits("btn-download without an anchor"));
}

#[test]
fn url_bases() {
    assert_eq!(
        extract_url_base("https://www.gta5-mods.com/vehicles/x"),
        Ok("https://www.gta5-mods.com".to_string())
    );
    assert_eq!(extract_url_base("http://a.b"), Ok("http://a.b".to_string()));
    assert_eq!(extract_url_base("ftp://x"), Err(UrlError::MissingScheme));
}

#[test]
fn download_page_and_file() {
    assert_eq!(
        download_page_url("https://g.com/vehicles/x/", "https://g.com", "<p>none</p>"),
        "https://g.com/vehicles/x/download"
    );
    assert_eq!(
        download_page_url("https://g.com/vehicles/x", "https://g.com", "<a href=\"/vehicles/x/download/1\">"),
        "https://g.com/vehicles/x/download/1"
    );
    let page = padded("<a class=\"btn-download\" href=\"https://cdn.example/x.zip\">");
    assert_eq!(
        download_file_url("https://g.com", &page),
        Some("https://cdn.example/x.zip".to_string())
    );
    assert_eq!(
        download_file_url("https://g.com", "<a href=\"/files/download/x.zip\">"),
        Some("https://g.com/files/download/x.zip".to_string())
    );
    assert_eq!(download_file_url("https://g.com", "<p></p>"), None);
}

#[test]
fn download_file_names() {
    assert_eq!(download_file_name("https://cdn.example/files/mod.zip"), "mod.zip");
    assert_eq!(download_file_name("https://cdn.example/files/mod.7z?token=a/b"), "mod.7z");
    assert_eq!(download_file_name("https://cdn.example/files/"), "download.zip");
    assert_eq!(download_file_name("https://cdn.example/x/?q=1"), "download.zip");
    assert_eq!(download_file_name("plain"), "plain");
}
