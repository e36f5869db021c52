use pkg_cache_clean::catalog::{compare_files, pkg_files, sort_files};
use pkg_cache_clean::package::{PackageFile, PackageIdentity};
use pkg_cache_clean::version::{lexical_compare, Comparison};

fn file(name: &str, version: &str, path: &str) -> PackageFile {
    PackageFile {
        identity: PackageIdentity { name: name.to_string(), version: version.to_string() },
        path: path.to_string(),
    }
}

fn paths_of(files: &[PackageFile]) -> Vec<String> {
    files.iter().map(|file| file.path.clone()).collect()
}

/// Orders versions by the numbers that their dots and hyphens part.
fn by_numbers(a: &str, b: &str) -> Comparison {
    let parts = |text: &str| -> Vec<u64> {
        text.split(|c| c == '.' || c == '-').map(|part| part.parse().unwrap_or(0)).collect()
    };
    let (left, right) = (parts(a), parts(b));
    if left < right {
        Comparison::Less
    } else if left == right {
        Comparison::Equal
    } else {
        Comparison::Greater
    }
}

#[test]
fn files_compare_by_name_first() {
    let a = file("bar", "9-9", "x");
    let b = file("foo", "1-1", "y");
    assert_eq!(compare_files(&a, &b, &by_numbers), Comparison::Less);
    assert_eq!(compare_files(&b, &a, &by_numbers), Comparison::Greater);
}

#[test]
fn files_of_one_name_compare_by_version() {
    let old = file("foo", "1.9-1", "x");
    let new = file("foo", "1.10-1", "y");
    assert_eq!(compare_files(&old, &new, &by_numbers), Comparison::Less);
    assert_eq!(compare_files(&new, &old, &by_numbers), Comparison::Greater);
    assert_eq!(compare_files(&old, &new, &lexical_compare), Comparison::Greater);
}

#[test]
fn the_path_plays_no_part_in_the_order() {
    let a = file("foo", "1.0-1", "a/foo-1.0-1-any");
    let b = file("foo", "1.0-1", "b/foo-1.0-1-any");
    assert_eq!(compare_files(&a, &b, &by_numbers), Comparison::Equal);
    assert_eq!(compare_files(&b, &a, &by_numbers), Comparison::Equal);
}

#[test]
fn the_comparator_is_not_asked_about_different_names() {
    let a = file("bar", "1-1", "x");
    let b = file("foo", "1-1", "y");
    let never = |_: &str, _: &str| -> Comparison { panic!("asked") };
    assert_eq!(compare_files(&a, &b, &never), Comparison::Less);
}

#[test]
fn sorting_orders_by_name_and_version() {
    let files = vec![
        file("foo", "1.10-1", "a"),
        file("bar", "2.0-1", "b"),
        file("foo", "1.9-1", "c"),
        file("foo", "1.9-2", "d"),
        file("bar", "1.0-1", "e"),
        file("baz", "0-0", "f"),
    ];
    let sorted = sort_files(files, &by_numbers);
    assert_eq!(paths_of(&sorted), ["e", "b", "f", "c", "d", "a"]);
}

#[test]
fn sorting_keeps_ties_in_their_order() {
    let files = vec![
        file("foo", "1.0-1", "third"),
        file("foo", "1.00-1", "fourth"),
        file("foo", "0.9-1", "first"),
        file("foo", "01.0-1", "fifth"),
        file("foo", "0.9-1", "second"),
        file("foo", "1.0-01", "sixth"),
    ];
    let sorted = sort_files(files, &by_numbers);
    assert_eq!(paths_of(&sorted), ["first", "second", "third", "fourth", "fifth", "sixth"]);
}

#[test]
fn sorting_loses_no_file() {
    let mut files = Vec::new();
    let mut seed: u64 = 12345;
    for i in 0..200 {
        seed = seed.wrapping_mul(6364136223846793005).wrapping_add(1442695040888963407);
        let name = format!("pkg{}", (seed >> 33) % 7);
        let version = format!("{}.{}-{}", (seed >> 40) % 3, (seed >> 45) % 12, (seed >> 50) % 2);
        files.push(file(&name, &version, &format!("path{}", i)));
    }
    let mut expected: Vec<(String, Vec<u64>, usize)> = files
        .iter()
        .enumerate()
        .map(|(i, file)| {
            let numbers = file
                .identity
                .version
                .split(|c| c == '.' || c == '-')
                .map(|part| part.parse().unwrap())
                .collect();
            (file.identity.name.clone(), numbers, i)
        })
        .collect();
    expected.sort();
    let sorted = sort_files(files, &by_numbers);
    let got: Vec<String> = paths_of(&sorted);
    let want: Vec<String> = expected.iter().map(|(_, _, i)| format!("path{}", i)).collect();
    assert_eq!(got, want);
}

#[test]
fn sorting_nothing_gives_nothing() {
    assert_eq!(sort_files(Vec::new(), &by_numbers), Vec::new());
}

#[test]
fn a_comparator_that_is_no_order_still_loses_no_file() {
    let files = vec![
        file("foo", "3-1", "a"),
        file("foo", "1-1", "b"),
        file("foo", "2-1", "c"),
        file("bar", "2-1", "d"),
    ];
    let always_less = |_: &str, _: &str| Comparison::Less;
    let mut paths = paths_of(&sort_files(files, &always_less));
    paths.sort();
    assert_eq!(paths, ["a", "b", "c", "d"]);
}

#[test]
fn package_files_of_a_cache() {
    let paths: Vec<String> = [
        "cache/foo-1.1-1-x86_64.pkg.tar.zst",
        "cache/foo-1.1-1-x86_64.pkg.tar.zst.sig",
        "cache/README",
        "cache/bar-2.0-3-any.pkg.tar.xz",
        "cache/.foo-1.1-1-x86_64.pkg.tar.zst.cfs",
        "cache/sub/foo-1.0-1-x86_64.pkg.tar.zst",
        "cache/sub",
        "cache/foo-1.10-1-x86_64.pkg.tar.zst",
        "cache/.foo-1.1-1-x86_64.pkg.tar.zst.sig.cfs",
    ]
    .iter()
    .map(|path| path.to_string())
    .collect();
    let files = pkg_files(&paths, &by_numbers);
    assert_eq!(
        files,
        vec![
            file("bar", "2.0-3", "cache/bar-2.0-3-any.pkg.tar.xz"),
            file("foo", "1.0-1", "cache/sub/foo-1.0-1-x86_64.pkg.tar.zst"),
            file("foo", "1.1-1", "cache/foo-1.1-1-x86_64.pkg.tar.zst"),
            file("foo", "1.10-1", "cache/foo-1.10-1-x86_64.pkg.tar.zst"),
        ]
    );
}

#[test]
fn an_empty_cache_has_no_package_files() {
    assert_eq!(pkg_files(&Vec::new(), &by_numbers), Vec::new());
    let paths = vec!["cache/notes.txt".to_string(), "cache/a-b-c.sig".to_string()];
    assert_eq!(pkg_files(&paths, &by_numbers), Vec::new());
}

#[test]
fn copies_of_one_release_stay_in_the_order_of_their_paths() {
    let paths: Vec<String> = ["b/foo-1-1-any", "a/foo-1-1-any", "c/foo-1-1-any", "a/foo-0-1-any"]
        .iter()
        .map(|path| path.to_string())
        .collect();
    let files = pkg_files(&paths, &by_numbers);
    assert_eq!(
        paths_of(&files),
        ["a/foo-0-1-any", "b/foo-1-1-any", "a/foo-1-1-any", "c/foo-1-1-any"]
    );
}
