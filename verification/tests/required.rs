use ojo::change::{Change, Changes};
use ojo::diff::LineDiff;
use ojo::file::File;
use ojo::ids::NodeId;
use ojo::multimap::MMap;

#[test]
fn file_from_bytes_empty() {
    let f = File::from_bytes(b"");
    assert_eq!(f.boundaries(), &vec![0]);
    assert_eq!(f.num_nodes(), 0);
    assert_eq!(f.num_lines(), 0);
    assert_eq!(f.ids().len(), 0);
}

#[test]
fn file_from_bytes_one_empty_line() {
    let f = File::from_bytes(b"\n");
    assert_eq!(f.boundaries(), &vec![0, 1]);
    assert_eq!(f.num_nodes(), 1);
    assert_eq!(f.num_lines(), 1);
    assert_eq!(f.ids().len(), 1);
}

#[test]
fn file_from_bytes_one_line_no_newline() {
    let f = File::from_bytes(b"test");
    assert_eq!(f.boundaries(), &vec![0, 4]);
    assert_eq!(f.num_nodes(), 1);
    assert_eq!(f.ids().len(), 1);
    assert_eq!(f.node(0), b"test");
    assert_eq!(f.line(0), b"test");
}

#[test]
fn file_from_bytes_one_line() {
    let f = File::from_bytes(b"test\n");
    assert_eq!(f.boundaries(), &vec![0, 5]);
    assert_eq!(f.num_nodes(), 1);
    assert_eq!(f.ids().len(), 1);
    assert_eq!(f.node(0), b"test\n");
    assert_eq!(f.line(0), b"test\n");
}

#[test]
fn file_from_bytes_two_lines() {
    let f = File::from_bytes(b"test1\ntest2\n");
    assert_eq!(f.boundaries(), &vec![0, 6, 12]);
    assert_eq!(f.num_nodes(), 2);
    assert_eq!(f.num_lines(), 2);
    assert_eq!(f.ids().len(), 2);
    assert_eq!(f.node(0), b"test1\n");
    assert_eq!(f.node(1), b"test2\n");
    assert_eq!(f.line(0), b"test1\n");
    assert_eq!(f.line(1), b"test2\n");
}

#[test]
fn change_from_diff_empty_first() {
    let file1 = File::from_bytes(b"");
    let file2 = File::from_bytes(b"something");
    let diff = vec![LineDiff::New(0)];

    let expected = vec![Change::NewNode {
        id: NodeId::cur(0),
        contents: b"something".to_vec(),
    }];
    assert_eq!(Changes::from_diff(&file1, &file2, &diff).changes, expected);
}

#[test]
fn get_empty() {
    let mut map: MMap<i32, i32> = MMap::new();
    assert!(map.get(&1).is_empty());
    map.insert(1, 2);
    assert!(!map.get(&1).is_empty());
    assert!(map.get(&2).is_empty());
}

#[test]
fn get_many() {
    let mut map: MMap<i32, i32> = MMap::new();
    map.insert(1, 2);
    map.insert(1, 3);
    map.insert(1, 2);
    map.insert(1, 1);
    assert_eq!(map.get(&1), vec![1, 2, 3]);
}

#[test]
fn contains() {
    let mut map: MMap<i32, i32> = MMap::new();
    map.insert(1, 2);
    map.insert(1, 3);
    assert!(map.contains(&1, &2));
    assert!(!map.contains(&2, &1));
    assert!(!map.contains(&1, &4));
}

#[test]
fn lines() {
    assert_eq!(ojo::file::lines(&b""[..]), vec![Vec::<u8>::new()]);
    assert_eq!(ojo::file::lines(&b"\n"[..]), vec![b"\n".to_vec()]);
    assert_eq!(
        ojo::file::lines(&b"a\nb\n"[..]),
        vec![b"a\n".to_vec(), b"b\n".to_vec()]
    );
    assert_eq!(
        ojo::file::lines(&b"a\nb"[..]),
        vec![b"a\n"[..].to_vec(), b"b"[..].to_vec()]
    );
}

#[test]
fn iter_in_key_then_value_order() {
    let mut map: MMap<i32, i32> = MMap::new();
    map.insert(2, 1);
    map.insert(1, 5);
    map.insert(1, 3);
    map.insert(2, 1);
    assert_eq!(map.iter(), vec![(1, 3), (1, 5), (2, 1)]);
}
