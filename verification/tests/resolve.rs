use fortuner::error::FortuneError;
use fortuner::order::compare_paths;
use fortuner::order::Rank;
use fortuner::resolve::find_files;
use fortuner::resolve::is_reserved;
use fortuner::resolve::Entry;
use fortuner::resolve::Listing;

fn file(path: &str) -> Entry {
    let name = path.rsplit('/').next().unwrap().to_string();
    Entry { path: path.to_string(), name, is_file: true }
}

fn directory(path: &str) -> Entry {
    let name = path.rsplit('/').next().unwrap().to_string();
    Entry { path: path.to_string(), name, is_file: false }
}

fn found(root: &str, entries: Vec<Entry>) -> Listing {
    Listing { root: root.to_string(), found: Ok(entries) }
}

fn missing(root: &str) -> Listing {
    Listing {
        root: root.to_string(),
        found: Err("No such file or directory (os error 2)".to_string()),
    }
}

fn inputs() -> Listing {
    found(
        "./tests/inputs",
        vec![
            directory("./tests/inputs"),
            file("./tests/inputs/quotes.dat"),
            file("./tests/inputs/jokes"),
            file("./tests/inputs/literature.dat"),
            directory("./tests/inputs/empty"),
            file("./tests/inputs/empty/.gitkeep"),
            file("./tests/inputs/quotes"),
            file("./tests/inputs/ascii-art.dat"),
            file("./tests/inputs/literature"),
            file("./tests/inputs/jokes.dat"),
            file("./tests/inputs/ascii-art"),
        ],
    )
}

#[test]
fn test_find_files() {
    // Verify that the function finds a file known to exist
    let res = find_files(&[found("./tests/inputs/jokes", vec![file("./tests/inputs/jokes")])]);
    assert!(res.is_ok());

    let files = res.unwrap();
    assert_eq!(files.len(), 1);
    assert_eq!(files.get(0).unwrap(), "./tests/inputs/jokes");

    // Fails to find a bad file
    let res = find_files(&[missing("/path/does/not/exist")]);
    assert!(res.is_err());

    // Finds all the input files, excludes ".dat"
    let res = find_files(&[inputs()]);
    assert!(res.is_ok());

    // Check number and order of files
    let files = res.unwrap();
    assert_eq!(files.len(), 5);
    let first = files.get(0).unwrap().to_string();
    assert!(first.contains("ascii-art"));
    let last = files.last().unwrap().to_string();
    assert!(last.contains("quotes"));

    // Test for multiple sources, path must be unique and sorted
    let res = find_files(&[
        found("./tests/inputs/jokes", vec![file("./tests/inputs/jokes")]),
        found("./tests/inputs/ascii-art", vec![file("./tests/inputs/ascii-art")]),
        found("./tests/inputs/jokes", vec![file("./tests/inputs/jokes")]),
    ]);
    assert!(res.is_ok());
    let files = res.unwrap();
    assert_eq!(files.len(), 2);
    if let Some(filename) = std::path::Path::new(files.first().unwrap()).file_name() {
        assert_eq!(filename.to_string_lossy(), "ascii-art".to_string())
    }
    if let Some(filename) = std::path::Path::new(files.last().unwrap()).file_name() {
        assert_eq!(filename.to_string_lossy(), "jokes".to_string())
    }
}

#[test]
fn directory_gives_its_files_in_order() {
    let files = find_files(&[inputs()]).unwrap();
    assert_eq!(
        files,
        vec![
            "./tests/inputs/ascii-art",
            "./tests/inputs/empty/.gitkeep",
            "./tests/inputs/jokes",
            "./tests/inputs/literature",
            "./tests/inputs/quotes",
        ]
    );
}

#[test]
fn flat_directory_gives_one_path_for_each_file() {
    let listing = found(
        "d",
        vec![directory("d"), file("d/c"), file("d/a"), file("d/b"), file("d/e"), file("d/d")],
    );
    let files = find_files(&[listing]).unwrap();
    assert_eq!(files, vec!["d/a", "d/b", "d/c", "d/d", "d/e"]);
}

#[test]
fn file_found_at_two_sources_is_named_once() {
    let files = find_files(&[
        found("d", vec![directory("d"), file("d/x"), file("d/y")]),
        found("d/x", vec![file("d/x")]),
        found("d", vec![directory("d"), file("d/x"), file("d/y")]),
    ])
    .unwrap();
    assert_eq!(files, vec!["d/x", "d/y"]);
}

#[test]
fn missing_source_is_reported_with_its_path() {
    let res = find_files(&[missing("/path/does/not/exist")]);
    match res {
        Err(e) => {
            assert_eq!(
                e.message(),
                "/path/does/not/exist: No such file or directory (os error 2)"
            );
            match e {
                FortuneError::NotFound { path, cause } => {
                    assert_eq!(path, "/path/does/not/exist");
                    assert_eq!(cause, "No such file or directory (os error 2)");
                }
                other => panic!("{:?}", other),
            }
        }
        Ok(files) => panic!("{:?}", files),
    }
}

#[test]
fn first_missing_source_ends_the_work() {
    let res = find_files(&[
        found("a", vec![file("a")]),
        missing("gone"),
        missing("also-gone"),
        found("b", vec![file("b")]),
    ]);
    match res {
        Err(FortuneError::NotFound { path, .. }) => assert_eq!(path, "gone"),
        other => panic!("{:?}", other),
    }
}

#[test]
fn no_sources_give_no_files() {
    assert!(find_files(&[]).unwrap().is_empty());
    assert!(find_files(&[found("d", vec![directory("d")])]).unwrap().is_empty());
}

#[test]
fn directories_are_no_candidates() {
    let files = find_files(&[found(
        "d",
        vec![directory("d"), directory("d/sub"), file("d/sub/f"), directory("d/other.txt")],
    )])
    .unwrap();
    assert_eq!(files, vec!["d/sub/f"]);
}

#[test]
fn reserved_extension_is_exact() {
    assert!(is_reserved("jokes.dat"));
    assert!(is_reserved("a.dat"));
    assert!(is_reserved("archive.tar.dat"));
    assert!(is_reserved("..dat"));
    assert!(is_reserved(".hidden.dat"));
    assert!(is_reserved("née.dat"));

    assert!(!is_reserved("jokes"));
    assert!(!is_reserved(".dat"));
    assert!(!is_reserved("dat"));
    assert!(!is_reserved("jokes.DAT"));
    assert!(!is_reserved("jokes.Dat"));
    assert!(!is_reserved("jokes.data"));
    assert!(!is_reserved("jokes.dat.txt"));
    assert!(!is_reserved("jokes.dat."));
    assert!(!is_reserved("jokes.da"));
    assert!(!is_reserved("jokesdat"));
    assert!(!is_reserved(""));
    assert!(!is_reserved(".."));
    assert!(!is_reserved("."));
}

#[test]
fn reserved_extension_agrees_with_the_standard_library() {
    for name in [
        "jokes.dat", ".dat", "..dat", "a.b.dat", "dat", "x.dat.", "x.DAT", ".a.dat", "..", ".",
        "", "a.", "x.datx", "é.dat",
    ] {
        let expected =
            std::path::Path::new(name).extension().map(|e| e == "dat").unwrap_or(false);
        assert_eq!(is_reserved(name), expected, "{:?}", name);
    }
}

#[test]
fn files_with_the_reserved_extension_are_left_out_at_any_depth() {
    let files = find_files(&[found(
        "d",
        vec![
            directory("d"),
            file("d/a.dat"),
            file("d/b"),
            directory("d/e"),
            file("d/e/c.dat"),
            file("d/e/f/g.dat"),
            file("d/e/.dat"),
        ],
    )])
    .unwrap();
    assert_eq!(files, vec!["d/b", "d/e/.dat"]);
}

#[test]
fn reserved_file_named_as_a_source_is_left_out() {
    let files = find_files(&[found("x.dat", vec![file("x.dat")])]).unwrap();
    assert!(files.is_empty());
}

#[test]
fn paths_are_ordered_by_their_bytes() {
    assert_eq!(compare_paths("a", "b"), Rank::Before);
    assert_eq!(compare_paths("b", "a"), Rank::After);
    assert_eq!(compare_paths("a", "a"), Rank::Same);
    assert_eq!(compare_paths("", ""), Rank::Same);
    assert_eq!(compare_paths("", "a"), Rank::Before);
    assert_eq!(compare_paths("a", "ab"), Rank::Before);
    assert_eq!(compare_paths("ab", "a"), Rank::After);
    assert_eq!(compare_paths("a-b", "a/b"), Rank::Before);
    assert_eq!(compare_paths("Z", "a"), Rank::Before);
    assert_eq!(compare_paths("z", "é"), Rank::Before);
    assert_eq!(compare_paths("abc", "abd"), Rank::Before);
}

#[test]
fn path_order_agrees_with_the_order_of_strings() {
    let paths = ["", "a", "a/b", "a-b", "ab", "b", "B", "é", "e", "zz", "a/b/c", "a/b.c"];
    for a in paths {
        for b in paths {
            let expected = if a < b {
                Rank::Before
            } else if a > b {
                Rank::After
            } else {
                Rank::Same
            };
            assert_eq!(compare_paths(a, b), expected, "{:?} {:?}", a, b);
        }
    }
}

#[test]
fn many_paths_come_out_sorted_and_once() {
    let mut entries = vec![directory("d")];
    let mut n: u32 = 7;
    for _ in 0..200 {
        n = (n * 31 + 11) % 101;
        entries.push(file(&format!("d/f{}", n)));
    }
    let files = find_files(&[found("d", entries)]).unwrap();
    let mut expected: Vec<String> = Vec::new();
    let mut n: u32 = 7;
    for _ in 0..200 {
        n = (n * 31 + 11) % 101;
        expected.push(format!("d/f{}", n));
    }
    expected.sort();
    expected.dedup();
    assert_eq!(files, expected);
}
