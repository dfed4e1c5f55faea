use dir_obj::{compare_names, Dir, DirError, Entry, File};
use std::cmp::Ordering;

fn file(text: &str) -> File {
    File::new(text.as_bytes().to_vec())
}

fn name(text: &str) -> Vec<u8> {
    text.as_bytes().to_vec()
}

fn count_entries(dir: &Dir) -> usize {
    let mut count = 0;
    for (_, entry) in dir.entries() {
        count += 1;
        if let Entry::Dir(d) = entry {
            count += count_entries(d);
        }
    }
    count
}

/// Nodes of the tree, the root directory included.
fn count_nodes(dir: &Dir) -> usize {
    1 + count_entries(dir)
}

fn names_of(dir: &Dir) -> Vec<Vec<u8>> {
    dir.entries().iter().map(|(n, _)| n.clone()).collect()
}

/// The tree of the example: `file0-0` and `dir0-0/file1-0`, each file
/// holding its own name.
fn sample(order_flipped: bool) -> Dir {
    let inner = Dir::from_entries(vec![(name("file1-0"), Entry::File(file("file1-0")))]).unwrap();
    let mut children = vec![
        (name("file0-0"), Entry::File(file("file0-0"))),
        (name("dir0-0"), Entry::Dir(inner)),
    ];
    if order_flipped {
        children.reverse();
    }
    Dir::from_entries(children).unwrap()
}

#[test]
fn file_keeps_its_bytes() {
    let f = File::new(vec![0, 159, 146, 150]);
    assert_eq!(f.bytes(), &[0u8, 159, 146, 150][..]);
    assert_eq!(File::new(Vec::new()).bytes(), &[] as &[u8]);
}

#[test]
fn new_dir_is_empty() {
    let d = Dir::new();
    assert_eq!(d.entries().len(), 0);
    assert_eq!(d, Dir::new());
}

#[test]
fn add_file_then_dir() {
    let mut d = Dir::new();
    assert_eq!(d.add_file(name("a"), file("alpha")), Ok(()));
    assert_eq!(d.add_dir(name("b"), Dir::new()), Ok(()));
    assert_eq!(d.entries().len(), 2);
    match &d.entries()[0] {
        (n, Entry::File(f)) => {
            assert_eq!(n, &name("a"));
            assert_eq!(f.bytes(), b"alpha");
        }
        _ => panic!("expected the file first"),
    }
    assert!(matches!(&d.entries()[1], (n, Entry::Dir(_)) if n == &name("b")));
}

#[test]
fn duplicate_file_name_is_rejected() {
    let mut d = Dir::new();
    d.add_file(name("x"), file("one")).unwrap();
    let before = names_of(&d);
    assert_eq!(d.add_file(name("x"), file("two")), Err(DirError::AlreadyExists));
    assert_eq!(names_of(&d), before);
    match &d.entries()[0].1 {
        Entry::File(f) => assert_eq!(f.bytes(), b"one"),
        Entry::Dir(_) => panic!("the file was replaced"),
    }
}

#[test]
fn duplicate_dir_name_is_rejected() {
    let mut d = Dir::new();
    d.add_dir(name("x"), Dir::new()).unwrap();
    assert_eq!(d.add_dir(name("x"), Dir::new()), Err(DirError::AlreadyExists));
    assert_eq!(d.add_file(name("x"), file("f")), Err(DirError::AlreadyExists));
    assert_eq!(d.entries().len(), 1);
    assert!(matches!(d.entries()[0].1, Entry::Dir(_)));
}

#[test]
fn entries_are_stable() {
    let d = sample(false);
    let first: Vec<Vec<u8>> = names_of(&d);
    let second: Vec<Vec<u8>> = names_of(&d);
    assert_eq!(first, second);
    assert_eq!(d.entries(), d.entries());
}

#[test]
fn entries_come_in_name_order() {
    let mut d = Dir::new();
    for n in ["m", "b", "zz", "a", "ab", ""] {
        d.add_file(name(n), file(n)).unwrap();
    }
    assert_eq!(
        names_of(&d),
        vec![name(""), name("a"), name("ab"), name("b"), name("m"), name("zz")]
    );
}

#[test]
fn non_text_names_are_kept() {
    let mut d = Dir::new();
    d.add_file(vec![0xff, 0xfe], file("raw")).unwrap();
    d.add_file(vec![0x00], file("nul")).unwrap();
    assert_eq!(names_of(&d), vec![vec![0x00], vec![0xff, 0xfe]]);
}

#[test]
fn from_entries_counts_children() {
    let children = vec![
        (name("c"), Entry::File(file("3"))),
        (name("a"), Entry::File(file("1"))),
        (name("b"), Entry::Dir(Dir::new())),
    ];
    let d = Dir::from_entries(children).unwrap();
    assert_eq!(d.entries().len(), 3);
    assert_eq!(names_of(&d), vec![name("a"), name("b"), name("c")]);
}

#[test]
fn from_entries_empty_listing() {
    let d = Dir::from_entries(Vec::new()).unwrap();
    assert_eq!(d.entries().len(), 0);
}

#[test]
fn from_entries_rejects_repeated_name() {
    let children = vec![
        (name("a"), Entry::File(file("1"))),
        (name("b"), Entry::File(file("2"))),
        (name("a"), Entry::Dir(Dir::new())),
    ];
    assert_eq!(Dir::from_entries(children), Err(DirError::AlreadyExists));
}

#[test]
fn sample_tree_counts() {
    let d = sample(false);
    assert_eq!(d.entries().len(), 2);
    assert_eq!(count_nodes(&d), 4);
    assert_eq!(count_entries(&d), 3);
}

#[test]
fn listing_order_does_not_matter() {
    assert_eq!(sample(false), sample(true));
}

#[test]
fn listing_rebuilds_the_same_tree() {
    let d = sample(false);
    let mut rebuilt = Dir::new();
    for (n, entry) in d.entries() {
        match entry {
            Entry::File(f) => rebuilt.add_file(n.clone(), File::new(f.bytes().to_vec())).unwrap(),
            Entry::Dir(sub) => {
                let mut copy = Dir::new();
                for (m, inner) in sub.entries() {
                    if let Entry::File(f) = inner {
                        copy.add_file(m.clone(), File::new(f.bytes().to_vec())).unwrap();
                    }
                }
                rebuilt.add_dir(n.clone(), copy).unwrap();
            }
        }
    }
    assert_eq!(rebuilt, d);
}

#[test]
fn different_content_differs() {
    let mut a = Dir::new();
    a.add_file(name("f"), file("one")).unwrap();
    let mut b = Dir::new();
    b.add_file(name("f"), file("two")).unwrap();
    assert_ne!(a, b);
}

#[test]
fn name_comparison() {
    assert_eq!(compare_names(b"abc", b"abd"), Ordering::Less);
    assert_eq!(compare_names(b"ab", b"abc"), Ordering::Less);
    assert_eq!(compare_names(b"abc", b"ab"), Ordering::Greater);
    assert_eq!(compare_names(b"", b""), Ordering::Equal);
    assert_eq!(compare_names(b"dir0-0", b"dir0-0"), Ordering::Equal);
    assert_eq!(compare_names(&[0xff], &[0x01, 0x02]), Ordering::Greater);
}
