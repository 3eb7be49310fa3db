use lsdup::lsdup::config::Config;
use lsdup::lsdup::content::ContentHasher;
use lsdup::lsdup::devino::DevIno;
use lsdup::lsdup::filevisitor::{AllInFileVisitor, FileMeta};
use lsdup::lsdup::lenhash::LenHash;

/// A regular file as a directory walk would find it: path, contents, link
/// count and inode (all on device 1).
struct Entry<'a> {
    path: &'a str,
    bytes: &'a [u8],
    nlink: u64,
    ino: u64,
}

fn entry<'a>(path: &'a str, bytes: &'a [u8], nlink: u64, ino: u64) -> Entry<'a> {
    Entry { path, bytes, nlink, ino }
}

fn identity(bytes: &[u8]) -> LenHash {
    let mut h = ContentHasher::new();
    h.update(bytes);
    h.finish(bytes.len() as u64)
}

struct Outcome {
    groups: Vec<(LenHash, Vec<String>)>,
    num_files: u32,
    total_file_bytes: u64,
    hashed: Vec<String>,
}

/// Runs the visitor over the entries in order, hashing what it asks for.
fn scan(entries: &[Entry]) -> Outcome {
    let config = Config { dirs: vec![String::from(".")], verbosity: 0 };
    let mut visitor: AllInFileVisitor<String> = AllInFileVisitor::new(&config);
    let mut hashed = Vec::new();
    for e in entries {
        let meta = FileMeta { len: e.bytes.len() as u64, nlink: e.nlink, id: DevIno::from(1, e.ino) };
        for p in visitor.visit(String::from(e.path), meta) {
            let bytes = entries.iter().find(|x| x.path == p).unwrap().bytes;
            hashed.push(p.clone());
            visitor.record(p, identity(bytes));
        }
    }
    let num_files = visitor.num_files();
    let total_file_bytes = visitor.total_file_bytes();
    Outcome { groups: visitor.into_duplicates(), num_files, total_file_bytes, hashed }
}

fn hex(id: &LenHash) -> String {
    id.to_hex().as_str().to_string()
}

#[test]
fn test_run() {
    let data: &[u8] = b"Contents for a test of two files of identical content. This should create a \"duplicate group\" with one file being marked as original, and the other as a duplicate.";
    let out = scan(&[entry("two_files/a.txt", data, 1, 1), entry("two_files/b.txt", data, 1, 2)]);
    assert_eq!(1, out.groups.len());
    let group = &out.groups[0];
    assert_eq!(2, group.1.len());
    assert_eq!("two_files/a.txt", group.1[0]);
    assert_eq!("two_files/b.txt", group.1[1]);
    assert_eq!(data.len() as u64, group.0.len());
}

#[test]
fn test_run_two_original_files_different_length() {
    let out = scan(&[
        entry("a.txt", b"Contents for a test of two files of different content. Both have different sizes as well. 1sdoerknsad", 1, 1),
        entry("b.txt", b"Contents for a test of two files of different content. Both have different sizes as well. 2sdoer", 1, 2),
    ]);
    assert_eq!(0, out.groups.len());
    assert!(out.hashed.is_empty());
}

#[test]
fn test_run_two_original_files_same_length() {
    let out = scan(&[
        entry("a.txt", b"Contents for a test of two files of different content. Both have different sizes as well. 1zcn,eiudn", 1, 1),
        entry("b.txt", b"Contents for a test of two files of different content. Both have different sizes as well. 2zcn,eiudn", 1, 2),
    ]);
    assert_eq!(0, out.groups.len());
    assert_eq!(vec![String::from("a.txt"), String::from("b.txt")], out.hashed);
}

#[test]
fn test_run_one_file() {
    let out = scan(&[entry("a.txt", b"Contents for a test of one file.", 1, 1)]);
    assert_eq!(0, out.groups.len());
    assert!(out.hashed.is_empty());
    assert_eq!(1, out.num_files);
    assert_eq!(32, out.total_file_bytes);
}

#[test]
fn test_run_zero_files() {
    let out = scan(&[]);
    assert_eq!(0, out.groups.len());
    assert_eq!(0, out.num_files);
    assert_eq!(0, out.total_file_bytes);
}

#[test]
fn test_run_hard_link() {
    let data: &[u8] = b"Contents for non-duplicated data. kjhkjh";
    let out = scan(&[entry("a.txt", data, 2, 7), entry("a-hardlink.txt", data, 2, 7)]);
    assert_eq!(0, out.groups.len());
    assert_eq!(1, out.num_files);
    assert_eq!(data.len() as u64, out.total_file_bytes);
    assert!(out.hashed.is_empty());
}

#[test]
fn test_run_hard_links_dupes() {
    let data: &[u8] = b"Contents for non-duplicated data. zcvzxcv";
    let out = scan(&[
        entry("a.txt", data, 2, 7),
        entry("a-hardlink.txt", data, 2, 7),
        entry("b.txt", data, 2, 8),
        entry("b-hardlink.txt", data, 2, 8),
    ]);
    assert_eq!(1, out.groups.len());
    let group = &out.groups[0];
    assert_eq!(2, group.1.len());
    assert_eq!("a.txt", group.1[0]);
    assert_eq!("b.txt", group.1[1]);
    assert_eq!(2, out.num_files);
}

#[test]
fn test_run_symlink() {
    // The walk passes over the symbolic link, so only the file reaches the visitor.
    let out = scan(&[entry("a.txt", b"Contents for non-duplicated data. qwelkrj", 1, 1)]);
    assert_eq!(0, out.groups.len());
    assert_eq!(1, out.num_files);
    assert!(out.hashed.iter().all(|p| p != "a-symlink.txt"));
}

#[test]
fn identical_pair_forms_one_group() {
    let data: &[u8] = b"hello-world-identical-bytes";
    let out = scan(&[entry("a.txt", data, 1, 1), entry("b.txt", data, 1, 2)]);
    assert_eq!(1, out.groups.len());
    assert_eq!(vec![String::from("a.txt"), String::from("b.txt")], out.groups[0].1);
    assert_eq!(27, out.groups[0].0.len());
    assert_eq!(hex(&identity(data)), hex(&out.groups[0].0));
}

#[test]
fn hard_link_excluded_from_group() {
    let data: &[u8] = b"same bytes here";
    let out = scan(&[
        entry("orig.txt", data, 2, 3),
        entry("link.txt", data, 2, 3),
        entry("copy.txt", data, 1, 4),
    ]);
    assert_eq!(1, out.groups.len());
    assert_eq!(vec![String::from("orig.txt"), String::from("copy.txt")], out.groups[0].1);
    assert_eq!(2, out.num_files);
    assert_eq!(30, out.total_file_bytes);
}

#[test]
fn size_unique_files_never_hashed() {
    let out = scan(&[
        entry("a", b"x", 1, 1),
        entry("b", b"yy", 1, 2),
        entry("c", b"zz", 1, 3),
        entry("d", b"www", 1, 4),
    ]);
    assert_eq!(vec![String::from("b"), String::from("c")], out.hashed);
    assert_eq!(0, out.groups.len());
}

#[test]
fn third_file_of_a_length_hashed_alone() {
    let out = scan(&[
        entry("a", b"aaaa", 1, 1),
        entry("b", b"bbbb", 1, 2),
        entry("c", b"aaaa", 1, 3),
    ]);
    assert_eq!(
        vec![String::from("a"), String::from("b"), String::from("c")],
        out.hashed
    );
    assert_eq!(1, out.groups.len());
    assert_eq!(vec![String::from("a"), String::from("c")], out.groups[0].1);
}

#[test]
fn groups_have_at_least_two_members() {
    let out = scan(&[
        entry("a", b"1111", 1, 1),
        entry("b", b"2222", 1, 2),
        entry("c", b"3333", 1, 3),
        entry("d", b"1111", 1, 4),
    ]);
    assert_eq!(1, out.groups.len());
    assert!(out.groups.iter().all(|g| g.1.len() >= 2));
}

#[test]
fn groups_reported_longest_first() {
    let out = scan(&[
        entry("s1", b"ab", 1, 1),
        entry("l1", b"abcdef", 1, 2),
        entry("m1", b"abcd", 1, 3),
        entry("s2", b"ab", 1, 4),
        entry("l2", b"abcdef", 1, 5),
        entry("m2", b"abcd", 1, 6),
        entry("m3", b"wxyz", 1, 7),
        entry("m4", b"wxyz", 1, 8),
    ]);
    let lens: Vec<u64> = out.groups.iter().map(|g| g.0.len()).collect();
    assert_eq!(vec![6, 4, 4, 2], lens);
    // Among equal lengths the larger digest comes first.
    assert!(hex(&out.groups[1].0) > hex(&out.groups[2].0));
    for w in out.groups.windows(2) {
        assert_eq!(std::cmp::Ordering::Less, w[0].0.cmp(&w[1].0));
    }
}

#[test]
fn counters_saturate_instead_of_overflowing() {
    let config = Config { dirs: vec![], verbosity: 2 };
    let mut v: AllInFileVisitor<String> = AllInFileVisitor::new(&config);
    assert_eq!(2, v.verbosity());
    let big = FileMeta { len: u64::MAX - 1, nlink: 1, id: DevIno::from(1, 1) };
    let small = FileMeta { len: 10, nlink: 1, id: DevIno::from(1, 2) };
    assert!(v.visit(String::from("big"), big).is_empty());
    assert!(v.visit(String::from("small"), small).is_empty());
    assert_eq!(u64::MAX, v.total_file_bytes());
    assert_eq!(2, v.num_files());
}

#[test]
fn failed_hash_drops_only_that_path() {
    let config = Config { dirs: vec![], verbosity: 0 };
    let mut v: AllInFileVisitor<String> = AllInFileVisitor::new(&config);
    let meta = |ino: u64| FileMeta { len: 3, nlink: 1, id: DevIno::from(1, ino) };
    assert!(v.visit(String::from("a"), meta(1)).is_empty());
    let first = v.visit(String::from("b"), meta(2));
    assert_eq!(vec![String::from("a"), String::from("b")], first);
    // "a" could not be read: it is not recorded.
    v.record(String::from("b"), identity(b"abc"));
    let third = v.visit(String::from("c"), meta(3));
    assert_eq!(vec![String::from("c")], third);
    v.record(String::from("c"), identity(b"abc"));
    let groups = v.into_duplicates();
    assert_eq!(1, groups.len());
    assert_eq!(vec![String::from("b"), String::from("c")], groups[0].1);
}
