use sector::clipboard::{hdrop_decode, hdrop_encode, read};

#[test]
fn hdrop_round_trip() {
    let paths = vec![
        r"C:\Users\me\photo élan.jpg".to_string(), // non-ASCII survives UTF-16
        r"\\nas\Media\Manga".to_string(),
    ];
    let bytes = hdrop_encode(&paths);
    // DROPFILES header: pFiles = 20, fWide = 1.
    assert_eq!(&bytes[0..4], &20u32.to_le_bytes());
    assert_eq!(&bytes[16..20], &1i32.to_le_bytes());
    assert!(bytes.ends_with(&[0, 0, 0, 0])); // "…\0" then the final "\0"
    assert_eq!(hdrop_decode(&bytes), paths);

    // Empty list still has a valid header + terminator, and decodes to nothing.
    assert!(hdrop_decode(&hdrop_encode(&Vec::new())).is_empty());
    // Garbage is rejected, not panicked on.
    assert!(hdrop_decode(&[1, 2, 3]).is_empty());
    assert!(hdrop_decode(&[200, 0, 0, 0, 0, 0, 0, 0, 0, 0, 0, 0, 0, 0, 0, 0, 1, 0, 0, 0]).is_empty());
}

#[test]
fn hdrop_decodes_ansi_lists() {
    // An ANSI (fWide = 0) payload from an old app: "C:\a\0D:\b\0\0".
    let mut bytes = Vec::new();
    bytes.extend_from_slice(&20u32.to_le_bytes());
    bytes.extend_from_slice(&[0u8; 12]); // pt, fNC
    bytes.extend_from_slice(&0i32.to_le_bytes()); // fWide = 0
    bytes.extend_from_slice(b"C:\\a\0D:\\b\0\0");
    assert_eq!(hdrop_decode(&bytes), vec![r"C:\a".to_string(), r"D:\b".to_string()]);
}

#[test]
fn characters_beyond_the_basic_plane_take_two_units() {
    let paths = vec!["C:\\\u{1F980}.png".to_string()];
    let bytes = hdrop_encode(&paths);
    assert_eq!(&bytes[26..30], &[0x3e, 0xd8, 0x80, 0xdd]);
    assert_eq!(hdrop_decode(&bytes), paths);
    // A lone half of a pair is replaced.
    let mut broken = bytes.clone();
    broken[28] = b'x';
    broken[29] = 0;
    assert_eq!(hdrop_decode(&broken), vec!["C:\\\u{FFFD}x.png".to_string()]);
}

#[test]
fn the_effect_tells_a_cut_from_a_copy() {
    let paths = vec![r"C:\a".to_string()];
    let (list, effect) = sector::clipboard::write(&paths, true);
    let f = read(Some(list.clone()), Some(effect)).unwrap();
    assert_eq!((f.paths, f.cut), (paths.clone(), true));
    let (_, effect) = sector::clipboard::write(&paths, false);
    assert_eq!(effect, vec![1, 0, 0, 0]);
    assert!(!read(Some(list.clone()), Some(effect)).unwrap().cut);
    assert!(!read(Some(list.clone()), None).unwrap().cut);
    assert!(!read(Some(list.clone()), Some(vec![2, 0])).unwrap().cut);
    assert!(!read(Some(list), Some(vec![3, 0, 0, 0])).unwrap().cut); // copy and move: a copy
    assert!(read(None, None).is_none());
    assert!(read(Some(hdrop_encode(&Vec::new())), None).is_none());
}
