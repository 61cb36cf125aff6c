use ars_dl::batch::folder_of_path;
use ars_dl::utils::{
    determine_save_path, extract_filename, filename_from_path, FilenameError, UrlErrorKind,
};

#[test]
fn filename_from_url() {
    assert_eq!(extract_filename("https://example.com/video.mp4"), Ok("video.mp4".to_string()));
    assert_eq!(extract_filename("https://example.com/a/b/c.tar.gz?x=1#y"), Ok("c.tar.gz".to_string()));
    assert_eq!(extract_filename("https://example.com/dir/"), Err(FilenameError::NoFilename));
    assert_eq!(extract_filename("https://example.com"), Err(FilenameError::NoFilename));
    assert_eq!(
        extract_filename("example.com/video.mp4"),
        Err(FilenameError::InvalidUrl(UrlErrorKind::RelativeUrlWithoutBase))
    );
    assert_eq!(extract_filename("https://example.com/%E8%A7%86.mp4"), Ok("%E8%A7%86.mp4".to_string()));
}

#[test]
fn save_path_from_url_or_custom_name() {
    let url = "https://example.com/video.mp4";
    assert_eq!(determine_save_path(url, None), "video.mp4");
    assert_eq!(determine_save_path(url, Some("我的视频")), "我的视频.mp4");
    assert_eq!(determine_save_path(url, Some("clip.mkv")), "clip.mkv");
    assert_eq!(determine_save_path(url, Some("'name'")), "name.mp4");
    assert_eq!(determine_save_path(url, Some("\"a:b\"")), "a_b.mp4");
    assert_eq!(determine_save_path(url, Some("\"我的视频\"")), "我的视频.mp4");
    assert_eq!(determine_save_path(url, Some("'我的视频'")), "我的视频.mp4");
    assert_eq!(determine_save_path(url, Some("\"'a'\"")), "a.mp4");
    assert_eq!(determine_save_path(url, Some("x/y?z*")), "x_y_z_.mp4");
    assert_eq!(determine_save_path(url, Some(".hidden")), ".hidden.mp4");
    assert_eq!(determine_save_path(url, Some("..")), "..");
    assert_eq!(determine_save_path(url, Some("")), "");
    assert_eq!(determine_save_path(url, Some("name.")), "name.");
    assert_eq!(determine_save_path("https://example.com/", None), "download");
    assert_eq!(determine_save_path("https://example.com/", Some("x")), "x");
    assert_eq!(determine_save_path("https://example.com/README", Some("x")), "x");
    assert_eq!(determine_save_path("https://example.com/.bashrc", Some("x")), "x");
    assert_eq!(determine_save_path("https://example.com/a.tar.gz", Some("x")), "x.gz");
}

#[test]
fn filename_error_messages() {
    assert_eq!(FilenameError::NoFilename.message(), "No filename found");
    let err = extract_filename("https://example.com/dir/").unwrap_err();
    assert_eq!(err.message(), "No filename found");
    let err = extract_filename("not a url").unwrap_err();
    assert_eq!(err, FilenameError::InvalidUrl(UrlErrorKind::RelativeUrlWithoutBase));
    assert_eq!(err.message(), "relative URL without a base");
}

#[test]
fn filename_and_folder_from_parsed_path() {
    assert_eq!(filename_from_path("/a/b/video.mp4"), Ok("video.mp4".to_string()));
    assert_eq!(filename_from_path("/"), Err(FilenameError::NoFilename));
    assert_eq!(filename_from_path("/dir/"), Err(FilenameError::NoFilename));
    assert_eq!(folder_of_path("/img/pic%03d.jpg"), "pic%03d");
    assert_eq!(folder_of_path("/dir/"), "dir");
    assert_eq!(folder_of_path("/"), "");
}

#[test]
fn refused_urls_carry_the_kind_and_its_text() {
    let cases = [
        ("http://", UrlErrorKind::EmptyHost, "empty host"),
        ("http://example.com:99999/a.bin", UrlErrorKind::InvalidPort, "invalid port number"),
        ("http://[::1/a.bin", UrlErrorKind::InvalidIpv6Address, "invalid IPv6 address"),
        ("http://256.0.0.1/a.bin", UrlErrorKind::InvalidIpv4Address, "invalid IPv4 address"),
        ("http://exa mple.com/a.bin", UrlErrorKind::IdnaError, "invalid international domain name"),
        ("a.bin", UrlErrorKind::RelativeUrlWithoutBase, "relative URL without a base"),
    ];
    for (raw, kind, text) in cases {
        let err = extract_filename(raw).unwrap_err();
        assert_eq!(err, FilenameError::InvalidUrl(kind), "{}", raw);
        assert_eq!(err.message(), text, "{}", raw);
    }
}

#[test]
fn every_error_kind_has_the_url_crate_text() {
    let kinds = [
        (UrlErrorKind::EmptyHost, url::ParseError::EmptyHost),
        (UrlErrorKind::IdnaError, url::ParseError::IdnaError),
        (UrlErrorKind::InvalidPort, url::ParseError::InvalidPort),
        (UrlErrorKind::InvalidIpv4Address, url::ParseError::InvalidIpv4Address),
        (UrlErrorKind::InvalidIpv6Address, url::ParseError::InvalidIpv6Address),
        (UrlErrorKind::InvalidDomainCharacter, url::ParseError::InvalidDomainCharacter),
        (UrlErrorKind::RelativeUrlWithoutBase, url::ParseError::RelativeUrlWithoutBase),
        (
            UrlErrorKind::RelativeUrlWithCannotBeABaseBase,
            url::ParseError::RelativeUrlWithCannotBeABaseBase,
        ),
        (UrlErrorKind::SetHostOnCannotBeABaseUrl, url::ParseError::SetHostOnCannotBeABaseUrl),
        (UrlErrorKind::Overflow, url::ParseError::Overflow),
    ];
    for (kind, error) in kinds {
        assert_eq!(FilenameError::InvalidUrl(kind).message(), error.to_string());
    }
    assert_eq!(FilenameError::InvalidUrl(UrlErrorKind::Other).message(), "invalid URL");
}
