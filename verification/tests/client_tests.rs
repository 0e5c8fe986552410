use dhaar_torrent::client::{Client, Entry};

fn entry(name: &str, byte: u8) -> Entry<u32> {
    Entry { name: name.to_string(), info_hash: [byte; 20], handle: byte as u32 }
}

#[test]
fn the_title_names_the_one_download_or_counts_them() {
    let mut c: Client<u32> = Client::new();
    assert_eq!(c.title(), "dhaar");
    c.push(entry("ubuntu.iso", 1));
    assert_eq!(c.title(), "ubuntu.iso \u{2014} dhaar");
    c.push(entry("arch.iso", 2));
    assert_eq!(c.title(), "2 downloads \u{2014} dhaar");
    for b in 3..13 {
        c.push(entry("x", b));
    }
    assert_eq!(c.title(), "12 downloads \u{2014} dhaar");
}

#[test]
fn the_same_torrent_is_not_added_twice() {
    let mut c: Client<u32> = Client::new();
    assert!(c.may_add("a", &[1; 20]));
    c.push(entry("a", 1));
    assert!(c.error.is_none());
    assert!(!c.may_add("copy of a", &[1; 20]));
    assert_eq!(c.error.as_deref(), Some("copy of a is already downloading"));
    assert_eq!(c.downloads.len(), 1);
    assert!(c.may_add("b", &[2; 20]));
    assert_eq!(c.error.as_deref(), Some("copy of a is already downloading"));
    c.push(entry("b", 2));
    assert!(c.error.is_none());
}

#[test]
fn removing_hands_the_download_back_and_ignores_a_bad_index() {
    let mut c: Client<u32> = Client::new();
    c.push(entry("a", 1));
    c.push(entry("b", 2));
    assert!(c.remove(5).is_none());
    assert_eq!(c.downloads.len(), 2);
    let gone = c.remove(0).unwrap();
    assert_eq!((gone.name.as_str(), gone.handle), ("a", 1));
    assert_eq!(c.downloads.len(), 1);
    assert_eq!(c.title(), "b \u{2014} dhaar");
    assert!(c.may_add("a", &[1; 20]));
}
