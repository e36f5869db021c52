use pkg_cache_clean::filename::{
    file_name, has_sidecar_extension, parse_file_name, parse_package_file, relative_path,
    sidecar_names,
};
use pkg_cache_clean::package::{PackageFile, PackageIdentity};

fn identity(name: &str, version: &str) -> PackageIdentity {
    PackageIdentity { name: name.to_string(), version: version.to_string() }
}

/// Every text over `alphabet` of at most `max_len` characters.
fn all_texts(alphabet: &[char], max_len: usize) -> Vec<String> {
    let mut texts = vec![String::new()];
    let mut start = 0;
    for _ in 0..max_len {
        let end = texts.len();
        for i in start..end {
            for c in alphabet {
                let mut longer = texts[i].clone();
                longer.push(*c);
                texts.push(longer);
            }
        }
        start = end;
    }
    texts
}

#[test]
fn parses_a_plain_package_name() {
    assert_eq!(
        parse_file_name("foo-1.0-1-x86_64.pkg.tar.zst"),
        Some(identity("foo", "1.0-1"))
    );
}

#[test]
fn parses_a_name_with_hyphens_of_its_own() {
    assert_eq!(
        parse_file_name("gtk-update-icon-cache-3.24.31-1-x86_64.pkg.tar.zst"),
        Some(identity("gtk-update-icon-cache", "3.24.31-1"))
    );
    assert_eq!(parse_file_name("a-b-c-d-e-f"), Some(identity("a-b-c", "d-e")));
}

#[test]
fn parsing_recovers_the_parts_a_name_was_built_from() {
    let names = ["foo", "lib-foo", "a-b-c-d", "", "-", "x--y", "päck-chen"];
    let firsts = ["1.0", "", "2:1.4rc1", "1_0"];
    let seconds = ["1", "", "12"];
    let suffixes = ["x86_64.pkg.tar.zst", "any.pkg.tar.xz", "", "x\ny"];
    for name in names {
        for first in firsts {
            for second in seconds {
                for suffix in suffixes {
                    let file_name = format!("{}-{}-{}-{}", name, first, second, suffix);
                    let version = format!("{}-{}", first, second);
                    assert_eq!(
                        parse_file_name(&file_name),
                        Some(identity(name, &version)),
                        "{:?}",
                        file_name
                    );
                }
            }
        }
    }
}

#[test]
fn fewer_than_three_hyphens_never_match() {
    assert_eq!(parse_file_name(""), None);
    assert_eq!(parse_file_name("foo"), None);
    assert_eq!(parse_file_name("foo-1.0"), None);
    assert_eq!(parse_file_name("foo-1.0-1"), None);
    assert_eq!(parse_file_name("foo.pkg.tar.zst"), None);
}

#[test]
fn three_hyphens_alone_are_a_package_of_empty_parts() {
    assert_eq!(parse_file_name("---"), Some(identity("", "-")));
}

#[test]
fn a_line_feed_in_the_name_prevents_a_match() {
    assert_eq!(parse_file_name("fo\no-1.0-1-any"), None);
    assert_eq!(parse_file_name("foo-1.\n0-1-any"), Some(identity("foo", "1.\n0-1")));
    assert_eq!(parse_file_name("foo-1.0-1-an\ny"), Some(identity("foo", "1.0-1")));
}

#[test]
fn parsing_agrees_with_the_pattern_of_the_convention() {
    let pattern = regex::Regex::new(r"^(?P<name>.*)-(?P<version>[^-]*-[^-]*)-[^-]*$").unwrap();
    let mut texts = all_texts(&['a', '-', '\n', '.'], 7);
    texts.extend(all_texts(&['-', 'é', '\r'], 6));
    let mut matched = 0;
    for text in &texts {
        let expected = pattern.captures(text).map(|found| {
            identity(
                found.name("name").unwrap().as_str(),
                found.name("version").unwrap().as_str(),
            )
        });
        if expected.is_some() {
            matched += 1;
        }
        assert_eq!(parse_file_name(text), expected, "{:?}", text);
    }
    assert!(matched > 1000);
}

#[test]
fn sidecar_extensions_are_recognised_in_any_case() {
    for name in [
        "foo-1.0-1-any.pkg.tar.zst.sig",
        "foo-1.0-1-any.pkg.tar.zst.SIG",
        "foo.Sig",
        ".foo-1.0-1-any.pkg.tar.zst.cfs",
        ".foo-1.0-1-any.pkg.tar.zst.sig.cfs",
        "x.CFS",
        "x.cFs",
        "a..sig",
    ] {
        assert!(has_sidecar_extension(name), "{:?}", name);
    }
}

#[test]
fn other_names_are_no_sidecars() {
    for name in [
        "",
        "sig",
        ".sig",
        ".cfs",
        "..",
        "foo-1.0-1-any.pkg.tar.zst",
        "foo.sig.zst",
        "foo.sigs",
        "foo.si",
        "foo.sig.",
        "foo.cfg",
        "foosig",
    ] {
        assert!(!has_sidecar_extension(name), "{:?}", name);
    }
}

#[test]
fn sidecar_test_agrees_with_the_extension_of_a_path() {
    for name in all_texts(&['a', '.', 's', 'I', 'g'], 6) {
        let expected = match std::path::Path::new(&name).extension() {
            None => false,
            Some(ext) => ext.eq_ignore_ascii_case("cfs") || ext.eq_ignore_ascii_case("sig"),
        };
        assert_eq!(has_sidecar_extension(&name), expected, "{:?}", name);
    }
    for name in all_texts(&['.', 'c', 'F', 's'], 6) {
        let expected = match std::path::Path::new(&name).extension() {
            None => false,
            Some(ext) => ext.eq_ignore_ascii_case("cfs") || ext.eq_ignore_ascii_case("sig"),
        };
        assert_eq!(has_sidecar_extension(&name), expected, "{:?}", name);
    }
}

#[test]
fn file_name_is_the_last_component() {
    assert_eq!(file_name("/var/cache/pkg/foo-1.0-1-any.pkg.tar.zst"), "foo-1.0-1-any.pkg.tar.zst");
    assert_eq!(file_name("foo-1.0-1-any.pkg.tar.zst"), "foo-1.0-1-any.pkg.tar.zst");
    assert_eq!(file_name("a/b"), "b");
    assert_eq!(file_name("a/"), "");
    assert_eq!(file_name("/"), "");
    assert_eq!(file_name(""), "");
    assert_eq!(file_name("päck/chen/ü"), "ü");
}

#[test]
fn a_package_file_keeps_its_path() {
    assert_eq!(
        parse_package_file("cache/sub/foo-1.0-1-x86_64.pkg.tar.zst"),
        Some(PackageFile {
            identity: identity("foo", "1.0-1"),
            path: "cache/sub/foo-1.0-1-x86_64.pkg.tar.zst".to_string(),
        })
    );
}

#[test]
fn hyphens_of_the_directory_are_no_part_of_the_name() {
    assert_eq!(parse_package_file("my-cache-dir-1/foo.tar"), None);
    assert_eq!(
        parse_package_file("my-cache/a-1-2-x"),
        Some(PackageFile { identity: identity("a", "1-2"), path: "my-cache/a-1-2-x".to_string() })
    );
}

#[test]
fn sidecars_are_never_package_files() {
    for path in [
        "cache/foo-1.0-1-x86_64.pkg.tar.zst.sig",
        "cache/foo-1.0-1-x86_64.pkg.tar.zst.SIG",
        "cache/.foo-1.0-1-x86_64.pkg.tar.zst.cfs",
        "cache/.foo-1.0-1-x86_64.pkg.tar.zst.Cfs",
        "cache/.foo-1.0-1-x86_64.pkg.tar.zst.sig.cfs",
        "foo-1.0-1-x86_64.sig",
    ] {
        assert!(parse_file_name(&file_name(path)).is_some(), "{:?}", path);
        assert_eq!(parse_package_file(path), None, "{:?}", path);
    }
}

#[test]
fn sidecars_of_a_package_file() {
    let names = sidecar_names("foo-1.0-1-x86_64.pkg.tar.zst");
    assert_eq!(names.signature, "foo-1.0-1-x86_64.pkg.tar.zst.sig");
    assert_eq!(names.cfs, ".foo-1.0-1-x86_64.pkg.tar.zst.cfs");
    assert_eq!(names.signature_cfs, ".foo-1.0-1-x86_64.pkg.tar.zst.sig.cfs");
}

#[test]
fn the_sidecars_of_any_file_are_recognised() {
    for name in ["a", "foo-1.0-1-any.pkg.tar.zst", ".", "..", "ü", "x.sig"] {
        let names = sidecar_names(name);
        assert!(has_sidecar_extension(&names.signature));
        assert!(has_sidecar_extension(&names.cfs));
        assert!(has_sidecar_extension(&names.signature_cfs));
        assert_eq!(parse_package_file(&names.signature), None);
        assert_eq!(parse_package_file(&names.cfs), None);
        assert_eq!(parse_package_file(&names.signature_cfs), None);
    }
}

#[test]
fn a_path_reads_from_the_root_of_the_cache() {
    assert_eq!(relative_path("cache/sub/foo", "cache/"), Some("sub/foo".to_string()));
    assert_eq!(relative_path("cache/", "cache/"), Some(String::new()));
    assert_eq!(relative_path("cache/ü/x", "cache/ü"), Some("/x".to_string()));
    assert_eq!(relative_path("foo", ""), Some("foo".to_string()));
    assert_eq!(relative_path("other/foo", "cache/"), None);
    assert_eq!(relative_path("cach", "cache/"), None);
}
