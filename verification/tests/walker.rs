use smllr::pattern::{file_name, NamePattern, PatternFault};
use smllr::vfs::{FileType, FsError};
use smllr::walker::{DirEntry, DirWalker, Verdict};

fn strings(v: &[&str]) -> Vec<String> {
    v.iter().map(|s| s.to_string()).collect()
}

fn entry(path: &str, kind: FileType) -> DirEntry {
    DirEntry { path: path.to_string(), kind: Ok(kind) }
}

#[test]
fn file_name_is_what_follows_the_last_slash() {
    assert_eq!(file_name("/a/b.txt"), "b.txt");
    assert_eq!(file_name("plain"), "plain");
    assert_eq!(file_name("/top"), "top");
    assert_eq!(file_name("rel/ative/name"), "name");
    assert_eq!(file_name("/a/b/"), "");
    assert_eq!(file_name("/"), "");
    assert_eq!(file_name(""), "");
    assert_eq!(file_name("/München/grüße.txt"), "grüße.txt");
    assert_eq!(file_name("a//b"), "b");
}

#[test]
fn pattern_matches_anywhere_in_the_name() {
    let p = NamePattern::compile("tmp").unwrap();
    assert_eq!(p.source(), "tmp");
    assert!(p.matches("tmp"));
    assert!(p.matches("my_tmp_file"));
    assert!(!p.matches("temp"));
    let anchored = NamePattern::compile(r"^\d+\.log$").unwrap();
    assert!(anchored.matches("123.log"));
    assert!(!anchored.matches("a123.log"));
    assert!(!anchored.matches("123.log.gz"));
}

#[test]
fn pattern_that_does_not_compile_is_refused() {
    let e = NamePattern::compile("foo(bar").err().unwrap();
    assert_eq!(e.pattern, "foo(bar");
    assert_eq!(e.fault, PatternFault::Syntax);
    let e = NamePattern::compile(r"\w{1000}").err().unwrap();
    assert_eq!(e.pattern, r"\w{1000}");
    assert_eq!(e.fault, PatternFault::TooBig);
}

#[test]
fn pattern_from_the_engines_answer() {
    let ok = NamePattern::from_compiled("a+", regex::Regex::new("a+")).unwrap();
    assert!(ok.matches("caab"));
    assert!(!ok.matches("cb"));
    let e = NamePattern::from_compiled("a(", regex::Regex::new("a(")).err().unwrap();
    assert_eq!(e.pattern, "a(");
    assert_eq!(e.fault, PatternFault::Syntax);
    let big = r"\w{1000}";
    let e = NamePattern::from_compiled(big, regex::Regex::new(big)).err().unwrap();
    assert_eq!(e.pattern, big);
    assert_eq!(e.fault, PatternFault::TooBig);
}

#[test]
fn walker_refuses_the_first_bad_pattern() {
    let w = DirWalker::new(strings(&["/r"]));
    let e = w.blacklist_patterns(&strings(&["ok", "[", "(", "fine"])).err().unwrap();
    assert_eq!(e.pattern, "[");
    assert_eq!(e.fault, PatternFault::Syntax);
    let w = DirWalker::new(strings(&["/r"]));
    let e = w.blacklist_patterns(&strings(&["a", r"\w{1000}", "("])).err().unwrap();
    assert_eq!(e.pattern, r"\w{1000}");
    assert_eq!(e.fault, PatternFault::TooBig);
    let w = DirWalker::new(strings(&["/r"]));
    assert!(w.blacklist_patterns(&strings(&["a", "b+", r"\.c$"])).is_ok());
    let w = DirWalker::new(strings(&["/r"]));
    assert!(w.blacklist_patterns(&Vec::new()).is_ok());
}

#[test]
fn folders_are_excluded_by_their_exact_path() {
    let w = DirWalker::new(strings(&["/r"])).blacklist_folders(strings(&["/r/tmp", "/var"]));
    assert!(!w.should_traverse_folder("/r/tmp"));
    assert!(!w.should_traverse_folder("/var"));
    assert!(w.should_traverse_folder("/r/tmp/"));
    assert!(w.should_traverse_folder("/r/tmp2"));
    assert!(w.should_traverse_folder("/r/tm"));
    assert!(w.should_traverse_folder("/r"));
    assert!(w.should_traverse_folder("r/tmp"));
    let more = w.blacklist_folders(strings(&["/r"]));
    assert!(!more.should_traverse_folder("/r"));
    assert!(!more.should_traverse_folder("/var"));
}

#[test]
fn files_are_excluded_by_their_base_name() {
    let w = DirWalker::new(strings(&["/r"]))
        .blacklist_patterns(&strings(&["^core$", r"\.o$"]))
        .unwrap();
    assert!(!w.should_handle_file("/r/core"));
    assert!(!w.should_handle_file("/r/src/main.o"));
    assert!(w.should_handle_file("/r/core/dump"));
    assert!(w.should_handle_file("/r/a.o/readme"));
    assert!(w.should_handle_file("/r/score"));
    assert!(!w.should_handle_file("core"));
    let none = DirWalker::new(strings(&["/r"]));
    assert!(none.should_handle_file("/r/core"));
}

#[test]
fn verdict_by_kind() {
    let w = DirWalker::new(strings(&["/r"]))
        .blacklist_folders(strings(&["/r/out"]))
        .blacklist_patterns(&strings(&["~$"]))
        .unwrap();
    assert_eq!(w.verdict("/r/src", Ok(FileType::Dir)), Verdict::Descend);
    assert_eq!(w.verdict("/r/out", Ok(FileType::Dir)), Verdict::Skip);
    assert_eq!(w.verdict("/r/a.txt", Ok(FileType::File)), Verdict::Emit);
    assert_eq!(w.verdict("/r/a.txt~", Ok(FileType::File)), Verdict::Skip);
    // An excluded folder path does not exclude a file, nor a pattern a folder.
    assert_eq!(w.verdict("/r/out", Ok(FileType::File)), Verdict::Emit);
    assert_eq!(w.verdict("/r/dir~", Ok(FileType::Dir)), Verdict::Descend);
    assert_eq!(w.verdict("/r/link", Ok(FileType::Symlink)), Verdict::Skip);
    assert_eq!(w.verdict("/r/sock", Ok(FileType::Other)), Verdict::Skip);
    assert_eq!(
        w.verdict("/r/gone", Err(FsError::NotFound)),
        Verdict::Report(FsError::NotFound)
    );
}

#[test]
fn walk_takes_listings_one_at_a_time() {
    let w = DirWalker::new(strings(&["/r1", "/skip", "/r2"]))
        .blacklist_folders(strings(&["/skip", "/r1/no"]))
        .blacklist_patterns(&strings(&["^x"]))
        .unwrap();
    let mut walk = w.start();
    assert!(!walk.is_done());
    assert_eq!(walk.next_dir(), Some(&"/r1".to_string()));
    walk.absorb(
        &w,
        Ok(vec![
            entry("/r1/a", FileType::File),
            entry("/r1/d1", FileType::Dir),
            entry("/r1/xa", FileType::File),
            entry("/r1/no", FileType::Dir),
            entry("/r1/l", FileType::Symlink),
            DirEntry { path: "/r1/bad".to_string(), kind: Err(FsError::PermissionDenied) },
            entry("/r1/d2", FileType::Dir),
            entry("/r1/b", FileType::File),
        ]),
    );
    assert_eq!(walk.files(), &strings(&["/r1/a", "/r1/b"]));
    assert_eq!(walk.errors().len(), 1);
    assert_eq!(walk.errors()[0].path, "/r1/bad");
    assert_eq!(walk.errors()[0].error, FsError::PermissionDenied);
    assert_eq!(walk.next_dir(), Some(&"/r1/d1".to_string()));
    walk.absorb(&w, Err(FsError::NotFound));
    assert_eq!(walk.errors().len(), 2);
    assert_eq!(walk.errors()[1].path, "/r1/d1");
    assert_eq!(walk.errors()[1].error, FsError::NotFound);
    assert_eq!(walk.next_dir(), Some(&"/r1/d2".to_string()));
    walk.absorb(&w, Ok(vec![entry("/r1/d2/c", FileType::File)]));
    assert_eq!(walk.next_dir(), Some(&"/r2".to_string()));
    walk.absorb(&w, Ok(vec![]));
    assert!(walk.is_done());
    assert_eq!(walk.next_dir(), None);
    assert_eq!(walk.files(), &strings(&["/r1/a", "/r1/b", "/r1/d2/c"]));
    // With nothing pending a listing changes nothing.
    walk.absorb(&w, Ok(vec![entry("/late", FileType::File)]));
    assert_eq!(walk.files().len(), 3);
    assert_eq!(walk.errors().len(), 2);
}

#[test]
fn walk_of_no_roots_is_over_at_once() {
    let w = DirWalker::new(Vec::new());
    let walk = w.start();
    assert!(walk.is_done());
    assert!(walk.files().is_empty());
    assert!(walk.errors().is_empty());
}

#[test]
fn entry_of_a_child() {
    let seen = DirEntry::of_child("/d", Ok(("/d/f".to_string(), Ok(FileType::File))));
    assert_eq!(seen.path, "/d/f");
    assert_eq!(seen.kind, Ok(FileType::File));
    let odd = DirEntry::of_child("/d", Ok(("/d/g".to_string(), Err(FsError::PermissionDenied))));
    assert_eq!(odd.path, "/d/g");
    assert_eq!(odd.kind, Err(FsError::PermissionDenied));
    let lost = DirEntry::of_child("/d", Err(FsError::MetadataUnavailable));
    assert_eq!(lost.path, "/d");
    assert_eq!(lost.kind, Err(FsError::MetadataUnavailable));
}
