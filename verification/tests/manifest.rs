use neptungen::manifest::{deserialize, serialize, ManifestError, CRC_FILE_NAME, OLD_CRC_FILE_NAME};
use neptungen::path::FsPath;
use neptungen::sha1dir::{create_hashes, Node, TreeEntry};
use neptungen::snapshot::DigestMap;

fn sample() -> DigestMap {
    create_hashes(&vec![
        TreeEntry { path: FsPath::new("./a.html"), node: Node::File(b"v1".to_vec()) },
        TreeEntry { path: FsPath::new("./dir"), node: Node::Dir },
        TreeEntry { path: FsPath::new("./dir/b.html"), node: Node::File(b"hello".to_vec()) },
    ])
}

fn same(a: &DigestMap, b: &DigestMap) -> bool {
    a.len() == b.len()
        && (0..a.len()).all(|i| a.path(i).same(b.path(i)) && a.digest(i) == b.digest(i))
}

#[test]
fn manifest_names() {
    assert_eq!(CRC_FILE_NAME, "checksums.crc");
    assert_eq!(OLD_CRC_FILE_NAME, "checksums_old.crc");
}

#[test]
fn manifest_round_trip() {
    let map = sample();
    let bytes = serialize(&map);
    let back = deserialize(&bytes).unwrap();
    assert!(same(&map, &back));
}

#[test]
fn manifest_of_empty_map_is_empty() {
    let map = DigestMap::new();
    assert!(serialize(&map).is_empty());
    assert_eq!(deserialize(&[]).unwrap().len(), 0);
}

#[test]
fn manifest_layout() {
    let mut map = DigestMap::new();
    assert!(map.append(FsPath::new("./a"), [9u8; 20]));
    let bytes = serialize(&map);
    let mut expected = vec![9u8; 20];
    expected.extend_from_slice(&[2, 0, 0, 0, 0, 0, 0, 0]);
    expected.extend_from_slice(&[1, 0, 0, 0, 0, 0, 0, 0]);
    expected.push(b'.');
    expected.extend_from_slice(&[1, 0, 0, 0, 0, 0, 0, 0]);
    expected.push(b'a');
    assert_eq!(bytes, expected);
}

#[test]
fn manifest_round_trip_keeps_odd_names() {
    let mut map = DigestMap::new();
    assert!(map.append(FsPath::from_components(vec![b".".to_vec(), b"a b\nc".to_vec()]), [1u8; 20]));
    assert!(map.append(FsPath::from_components(vec![b".".to_vec(), vec![0xff, 0x00]]), [2u8; 20]));
    let back = deserialize(&serialize(&map)).unwrap();
    assert!(same(&map, &back));
}

#[test]
fn truncated_manifest_is_refused() {
    let bytes = serialize(&sample());
    for cut in [1, 19, 20, 27, 28, 30, bytes.len() - 1] {
        assert_eq!(deserialize(&bytes[..cut]).unwrap_err(), ManifestError::Truncated);
    }
}

#[test]
fn manifest_with_oversized_length_is_refused() {
    let mut bytes = vec![0u8; 20];
    bytes.extend_from_slice(&[1, 0, 0, 0, 0, 0, 0, 0]);
    bytes.extend_from_slice(&[0xff; 8]);
    bytes.extend_from_slice(b"abc");
    assert_eq!(deserialize(&bytes).unwrap_err(), ManifestError::Truncated);
}

#[test]
fn manifest_out_of_order_is_refused() {
    let mut first = DigestMap::new();
    assert!(first.append(FsPath::new("./b"), [1u8; 20]));
    let mut second = DigestMap::new();
    assert!(second.append(FsPath::new("./a"), [2u8; 20]));
    let mut bytes = serialize(&first);
    bytes.extend_from_slice(&serialize(&second));
    assert_eq!(deserialize(&bytes).unwrap_err(), ManifestError::NotInOrder);
}

#[test]
fn manifest_with_repeated_path_is_refused() {
    let mut one = DigestMap::new();
    assert!(one.append(FsPath::new("./a"), [1u8; 20]));
    let mut bytes = serialize(&one);
    bytes.extend_from_slice(&serialize(&one));
    assert_eq!(deserialize(&bytes).unwrap_err(), ManifestError::NotInOrder);
}

#[test]
fn digest_map_merge_and_search() {
    let mut map = DigestMap::new();
    map.merge(&FsPath::new("./m"), &[1u8; 20]);
    map.merge(&FsPath::new("./a"), &[2u8; 20]);
    map.merge(&FsPath::new("./z"), &[3u8; 20]);
    map.merge(&FsPath::new("./m"), &[3u8; 20]);
    assert_eq!(map.len(), 3);
    assert_eq!(map.get(&FsPath::new("./m")).unwrap(), [2u8; 20]);
    assert_eq!(map.search(&FsPath::new("./a")), (0, true));
    assert_eq!(map.search(&FsPath::new("./b")), (1, false));
    assert_eq!(map.search(&FsPath::new("./zz")), (3, false));
    assert!(map.get(&FsPath::new("./b")).is_none());
}

#[test]
fn digest_map_append_keeps_order() {
    let mut map = DigestMap::new();
    assert!(map.append(FsPath::new("./b"), [1u8; 20]));
    assert!(!map.append(FsPath::new("./a"), [1u8; 20]));
    assert!(!map.append(FsPath::new("./b"), [1u8; 20]));
    assert!(map.append(FsPath::new("./c"), [1u8; 20]));
    assert_eq!(map.len(), 2);
}
