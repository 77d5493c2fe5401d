use std::io::{Cursor, Write};

use modlauncher::archive::{classify_entry, entry_is_safe, read_archive, ExtractError};
use modlauncher::config::launch_arguments;
use modlauncher::probe::{
    parse_server_address, query_packet, status_from_reply, ProbeError, ReplyInfo,
};
use modlauncher::update::{check_mod_version, mod_info_from, stage_download, FetchError, VersionFile};
use modlauncher::version::{compare_versions, parse_version};
use zip::write::SimpleFileOptions;
use zip::{CompressionMethod, ZipWriter};

fn build_zip(entries: &[(&str, Option<&[u8]>)]) -> Vec<u8> {
    let mut w = ZipWriter::new(Cursor::new(Vec::new()));
    let opts = SimpleFileOptions::default().compression_method(CompressionMethod::Stored);
    for (name, data) in entries {
        match data {
            Some(bytes) => {
                w.start_file(*name, opts).unwrap();
                w.write_all(bytes).unwrap();
            }
            None => {
                w.add_directory(*name, opts).unwrap();
            }
        }
    }
    w.finish().unwrap().into_inner()
}

#[test]
fn numeric_not_lexicographic_segments() {
    assert_eq!(compare_versions("1.2.0", "1.10.0"), -1);
    assert_eq!(compare_versions("1.10.0", "1.2.0"), 1);
}

#[test]
fn missing_segments_are_zero() {
    assert_eq!(compare_versions("1.2", "1.2.0"), 0);
    assert_eq!(compare_versions("1.2.0.0", "1.2"), 0);
}

#[test]
fn malformed_version_counts_as_zero() {
    assert_eq!(compare_versions("abc", "1.0.0"), -1);
    assert_eq!(compare_versions("abc", "0.0.0"), 0);
    assert_eq!(compare_versions("1.x.3", "1.0.3"), 0);
}

#[test]
fn compare_is_antisymmetric_and_reflexive() {
    let samples = ["1.0.0", "1.2", "2.0.1", "", "abc", "0.9.99", "10"];
    for a in samples.iter() {
        assert_eq!(compare_versions(a, a), 0);
        for b in samples.iter() {
            assert_eq!(compare_versions(a, b), -compare_versions(b, a));
        }
    }
}

#[test]
fn parse_version_segments() {
    assert_eq!(parse_version("1.20.3"), vec![1, 20, 3]);
    assert_eq!(parse_version(""), vec![0]);
    assert_eq!(parse_version("4294967295.4294967296"), vec![4294967295, 0]);
    assert_eq!(parse_version("1..2"), vec![1, 0, 2]);
}

#[test]
fn missing_version_file_needs_update() {
    for latest in ["0.0.0", "1.0.0", "0.0.0.0", "junk"] {
        let info = check_mod_version("/game/modpack".to_string(), VersionFile::Missing, latest);
        assert_eq!(info.version, "0.0.0");
        assert!(info.needs_update);
        assert_eq!(info.path, "/game/modpack");
    }
}

#[test]
fn current_version_needs_no_update() {
    let info = check_mod_version(
        "/game/modpack".to_string(),
        VersionFile::Contents("1.0.0".to_string()),
        "1.0.0",
    );
    assert_eq!(info.version, "1.0.0");
    assert!(!info.needs_update);
}

#[test]
fn version_file_contents_are_trimmed() {
    let info = check_mod_version(
        "m".to_string(),
        VersionFile::Contents("  1.1.0\n".to_string()),
        "1.2.0",
    );
    assert_eq!(info.version, "1.1.0");
    assert!(info.needs_update);
}

#[test]
fn unreadable_version_file_counts_as_zero() {
    let info = check_mod_version("m".to_string(), VersionFile::Unreadable, "1.0.0");
    assert_eq!(info.version, "0.0.0");
    assert!(info.needs_update);
    let info = check_mod_version("m".to_string(), VersionFile::Unreadable, "0.0");
    assert!(!info.needs_update);
}

#[test]
fn mod_info_newer_install() {
    let info = mod_info_from("p".to_string(), "2.0", "1.9.9");
    assert_eq!(info.version, "2.0");
    assert!(!info.needs_update);
}

#[test]
fn parent_component_is_path_traversal() {
    assert_eq!(classify_entry("../escape.txt"), Err(ExtractError::PathTraversal));
    assert_eq!(classify_entry("a/../../b"), Err(ExtractError::PathTraversal));
    assert_eq!(classify_entry("a\\..\\..\\b"), Err(ExtractError::PathTraversal));
    assert_eq!(classify_entry("/etc/passwd"), Err(ExtractError::PathTraversal));
    assert_eq!(classify_entry("\\server\\x"), Err(ExtractError::PathTraversal));
    assert_eq!(classify_entry("C:/x"), Err(ExtractError::PathTraversal));
    assert_eq!(classify_entry(".."), Err(ExtractError::PathTraversal));
    assert_eq!(classify_entry("a/./../../b/"), Err(ExtractError::PathTraversal));
}

#[test]
fn safe_entries_are_classified() {
    assert_eq!(classify_entry("modpack/"), Ok(true));
    assert_eq!(classify_entry("modpack/version.txt"), Ok(false));
    assert_eq!(classify_entry("a/..b/c..d"), Ok(false));
    assert_eq!(classify_entry("a/../b.txt"), Ok(false));
    assert_eq!(classify_entry("a\\..\\b"), Ok(false));
    assert_eq!(classify_entry("notes:1.txt"), Ok(false));
    assert_eq!(classify_entry("a/b/../../c/"), Ok(true));
    assert_eq!(classify_entry(""), Ok(false));
    assert!(entry_is_safe("..."));
    assert!(entry_is_safe("./x"));
    assert!(!entry_is_safe(".."));
    assert!(!entry_is_safe("a/../.."));
}

#[test]
fn archive_with_traversal_entry_is_rejected() {
    let bytes = build_zip(&[("ok.txt", Some(b"fine")), ("../escape.txt", Some(b"bad"))]);
    assert!(matches!(read_archive(bytes), Err(ExtractError::PathTraversal)));
}

#[test]
fn corrupt_archive_is_bad_archive() {
    assert!(matches!(read_archive(b"not a zip".to_vec()), Err(ExtractError::BadArchive)));
}

#[test]
fn archive_entries_are_read() {
    let bytes = build_zip(&[("modpack/", None), ("modpack/version.txt", Some(b"1.2.0"))]);
    let entries = read_archive(bytes).unwrap();
    assert_eq!(entries.len(), 2);
    assert_eq!(entries[0].name, "modpack/");
    assert!(entries[0].is_dir);
    assert!(entries[0].data.is_empty());
    assert_eq!(entries[1].name, "modpack/version.txt");
    assert!(!entries[1].is_dir);
    assert_eq!(entries[1].data, b"1.2.0".to_vec());
}

#[test]
fn failed_download_is_reported() {
    match stage_download(Err("timed out".to_string())) {
        Err(FetchError::DownloadFailed(cause)) => assert_eq!(cause, "timed out"),
        _ => panic!("expected a download failure"),
    }
}

#[test]
fn corrupt_download_stages_nothing() {
    let r = stage_download(Ok(b"PK\x03\x04garbage".to_vec()));
    assert_eq!(r.err(), Some(FetchError::ExtractFailed(ExtractError::BadArchive)));
}

#[test]
fn good_download_is_staged() {
    let bytes = build_zip(&[("modpack/a.txt", Some(b"x"))]);
    let entries = stage_download(Ok(bytes)).ok().unwrap();
    assert_eq!(entries.len(), 1);
    assert_eq!(entries[0].data, b"x".to_vec());
}

#[test]
fn unparseable_address_is_input_error() {
    for host in ["not an address", "", "1.2.3", "1.2.3.4.5", "256.0.0.1", "01.2.3.4", "1.2.3.x", "::1"] {
        assert_eq!(parse_server_address(host, 7777), Err(ProbeError::InvalidAddress));
    }
}

#[test]
fn dotted_address_is_parsed() {
    let t = parse_server_address("192.168.0.10", 7777).unwrap();
    assert_eq!(t.octets, [192, 168, 0, 10]);
    assert_eq!(t.port, 7777);
    let t = parse_server_address("0.0.0.0", 0).unwrap();
    assert_eq!(t.octets, [0, 0, 0, 0]);
    let t = parse_server_address("255.255.255.255", 65535).unwrap();
    assert_eq!(t.octets, [255, 255, 255, 255]);
}

#[test]
fn no_reply_is_offline() {
    let s = status_from_reply(None, 5000, "Server".to_string(), 200);
    assert!(!s.online);
    assert_eq!(s.players, 0);
    assert_eq!(s.max_players, 200);
    assert_eq!(s.ping, 0);
    assert_eq!(s.name, "Server");
}

#[test]
fn reply_is_online_with_ping() {
    let info = ReplyInfo { players: 12, max_players: 50, name: "Live".to_string() };
    let s = status_from_reply(Some(info), 35, "Server".to_string(), 0);
    assert!(s.online);
    assert_eq!(s.players, 12);
    assert_eq!(s.max_players, 50);
    assert_eq!(s.ping, 35);
    assert_eq!(s.name, "Live");
    let info = ReplyInfo { players: 0, max_players: 0, name: String::new() };
    assert_eq!(status_from_reply(Some(info), u64::MAX, String::new(), 0).ping, u32::MAX);
}

#[test]
fn query_packet_bytes() {
    assert_eq!(query_packet(), b"SAMP".to_vec());
}

#[test]
fn launch_arguments_order() {
    let expected: Vec<String> =
        ["-h", "1.2.3.4", "-p", "7777", "-n", "Player"].iter().map(|s| s.to_string()).collect();
    assert_eq!(launch_arguments("1.2.3.4", "7777", "Player"), expected);
}

#[test]
fn archive_entries_keep_archive_order() {
    let bytes = build_zip(&[("c.txt", Some(b"3")), ("a.txt", Some(b"1")), ("b/", None), ("b/x.txt", Some(b""))]);
    let entries = read_archive(bytes).unwrap();
    let names: Vec<&str> = entries.iter().map(|e| e.name.as_str()).collect();
    assert_eq!(names, vec!["c.txt", "a.txt", "b/", "b/x.txt"]);
    assert_eq!(entries[0].data, b"3".to_vec());
    assert_eq!(entries[1].data, b"1".to_vec());
    assert!(entries[2].is_dir);
    assert!(entries[3].data.is_empty());
}

#[test]
fn inner_climb_that_stays_inside_is_accepted() {
    let bytes = build_zip(&[("a/../b.txt", Some(b"b"))]);
    let entries = read_archive(bytes).unwrap();
    assert_eq!(entries[0].name, "a/../b.txt");
}

#[test]
fn traversal_download_reports_path_traversal() {
    let bytes = build_zip(&[("ok.txt", Some(b"x")), ("../escape.txt", Some(b"bad"))]);
    assert_eq!(
        stage_download(Ok(bytes)).err(),
        Some(FetchError::ExtractFailed(ExtractError::PathTraversal))
    );
}

#[test]
fn empty_download_is_bad_archive() {
    assert_eq!(
        stage_download(Ok(Vec::new())).err(),
        Some(FetchError::ExtractFailed(ExtractError::BadArchive))
    );
}

#[test]
fn signed_segment_is_malformed() {
    assert_eq!(parse_version("1.+5"), vec![1, 0]);
    assert_eq!(compare_versions("1.+5", "1.0"), 0);
}
