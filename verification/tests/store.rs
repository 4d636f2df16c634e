use jag::Archive;

#[test]
fn test_new_archive() {
    let archive = Archive::new();

    assert_eq!(archive.len(), 0);
    assert_eq!(archive.contains_key("logo.tga"), false);
    assert_eq!(archive.get("whatever"), None);
}

#[test]
fn test_empty_store_is_empty() {
    let archive = Archive::new();

    assert!(archive.is_empty());
    assert_eq!(archive.len(), 0);
    assert_eq!(archive.contains_key(""), false);
    assert_eq!(archive.get(""), None);
}

#[test]
fn test_insert_overwrites() {
    let mut archive = Archive::new();

    let first = vec![1u8, 2, 3];
    let second = vec![9u8, 8, 7, 6];

    assert_eq!(archive.insert("entry.dat", first.clone()), None);
    assert_eq!(archive.contains_key("entry.dat"), true);
    assert_eq!(archive.insert("entry.dat", second.clone()), Some(first));
    assert_eq!(archive.get("entry.dat"), Some(&second));
    assert_eq!(archive.len(), 1);
}

#[test]
fn test_remove() {
    let mut archive = Archive::new();

    assert_eq!(archive.remove("missing"), None);

    let data = vec![42u8; 16];
    archive.insert("present", data.clone());
    assert_eq!(archive.remove("present"), Some(data));
    assert_eq!(archive.get("present"), None);
    assert_eq!(archive.len(), 0);
}

#[test]
fn test_names_are_case_folded() {
    let mut archive = Archive::new();

    archive.insert("Logo.TGA", vec![1u8]);
    assert!(archive.contains_key("logo.tga"));
    assert!(archive.contains_key("LOGO.TGA"));
    assert_eq!(archive.get("logo.TGA"), Some(&vec![1u8]));
}

#[test]
fn test_get_mut() {
    let mut archive = Archive::new();

    assert_eq!(archive.get_mut("missing"), None);

    archive.insert("patch.me", vec![0u8, 0]);
    let entry = archive.get_mut("patch.me").unwrap();
    assert_eq!(entry, &vec![0u8, 0]);
    entry.push(9);
    entry[0] = 1;

    assert_eq!(archive.get("patch.me"), Some(&vec![1u8, 0, 9]));
    assert_eq!(archive.len(), 1);
}

#[test]
fn test_clear() {
    let mut archive = Archive::new();

    archive.insert("a", vec![1u8]);
    archive.insert("b", vec![2u8]);
    assert_eq!(archive.len(), 2);

    archive.clear();
    assert_eq!(archive.len(), 0);
    assert!(archive.is_empty());
    assert_eq!(archive.get("a"), None);
}

#[test]
fn test_default_is_empty() {
    let archive: Archive = Default::default();

    assert!(archive.is_empty());
}
