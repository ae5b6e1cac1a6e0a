use rust_dns::blocklist::{normalize, Blocklist, FileStamp, Watch, DEFAULT_BLOCKLIST};

#[test]
fn plain_blocks_apex_and_subdomains() {
    let bl = Blocklist::from_text("facebook.com");
    assert!(bl.is_blocked("facebook.com"));
    assert!(bl.is_blocked("www.facebook.com"));
    assert!(bl.is_blocked("a.b.facebook.com"));
    assert!(!bl.is_blocked("notfacebook.com"));
    assert!(!bl.is_blocked("example.com"));
}

#[test]
fn wildcard_blocks_subdomains_only() {
    let bl = Blocklist::from_text("*.example.com");
    assert!(!bl.is_blocked("example.com")); // apex still resolves
    assert!(bl.is_blocked("www.example.com"));
    assert!(bl.is_blocked("deep.cdn.example.com"));
    assert!(!bl.is_blocked("example.org"));
}

#[test]
fn url_and_comments_are_normalized() {
    let bl = Blocklist::from_text("# comment\nhttps://www.youtube.com/watch?v=1\n\n");
    assert!(bl.is_blocked("www.youtube.com"));
    assert!(bl.is_blocked("x.www.youtube.com"));
    assert!(!bl.is_blocked("youtube.com"));
}

#[test]
fn roundtrips_wildcard_prefix() {
    let bl = Blocklist::from_text("zzz.com\n*.example.com");
    let v = bl.to_sorted_vec();
    assert!(v.contains(&"*.example.com".to_string()));
    assert!(v.contains(&"zzz.com".to_string()));
    assert_eq!(bl.len(), 2);
}

#[test]
fn domains_are_cleaned() {
    assert_eq!(normalize("  HTTPS://WWW.Example.COM:8443/path?q#f  "), "www.example.com");
    assert_eq!(normalize("example.com..."), "example.com");
    assert_eq!(normalize("example.com/a:b"), "example.com");
    assert_eq!(normalize("STRASSE.\u{c4}.de"), "strasse.\u{e4}.de");
    assert_eq!(normalize("\u{a0}example.com\u{3000}"), "example.com");
    assert_eq!(normalize("HTTPS://Www.Example.Com/\u{c4}\u{3a3}?q=\u{1f600}"), "www.example.com");
    assert_eq!(normalize("http://Example.com:80\u{c4}/x"), "example.com");
    assert_eq!(normalize(" . "), "");
    assert_eq!(normalize(""), "");
}

#[test]
fn entries_are_counted_once_and_sorted() {
    let bl = Blocklist::from_text("b.com\r\na.com\nB.COM.\n*.a.com\n*.A.com\n   \n#c.com\n*.");
    assert_eq!(bl.len(), 3);
    assert_eq!(bl.to_sorted_vec(), vec!["*.a.com", "a.com", "b.com"]);
    assert_eq!(bl.to_file_text(), "*.a.com\na.com\nb.com\n");
}

#[test]
fn file_reads_back_as_the_same_list() {
    let bl = Blocklist::from_text("zzz.com\n*.example.com\nhttps://a.b/c");
    let again = Blocklist::from_text(&bl.to_file_text());
    assert_eq!(again.to_sorted_vec(), bl.to_sorted_vec());
    assert!(again.is_blocked("x.example.com"));
    assert!(!again.is_blocked("example.com"));
    let default = Blocklist::from_text(DEFAULT_BLOCKLIST);
    let again = Blocklist::from_text(&default.to_file_text());
    assert_eq!(again.to_sorted_vec(), default.to_sorted_vec());
}

#[test]
fn texts_add_up() {
    let bl = Blocklist::from_text("one.com\n*.two.com");
    assert!(bl.is_blocked("one.com"));
    assert!(bl.is_blocked("x.two.com"));
    assert!(!bl.is_blocked("two.com"));
}

#[test]
fn empty_list_blocks_nothing() {
    let bl = Blocklist::default();
    assert_eq!(bl.len(), 0);
    assert!(!bl.is_blocked(""));
    assert!(!bl.is_blocked("example.com"));
    assert_eq!(bl.to_file_text(), "\n");
    assert_eq!(Blocklist::from_text("").len(), 0);
}

#[test]
fn default_list_holds_one_entry() {
    let bl = Blocklist::from_text(DEFAULT_BLOCKLIST);
    assert_eq!(bl.to_sorted_vec(), vec!["facebook.com"]);
}

#[test]
fn changed_files_are_read_again() {
    let one = FileStamp { secs: 10, nanos: 5, len: 3 };
    let two = FileStamp { secs: 10, nanos: 6, len: 3 };
    let mut w = Watch { seen: Some(one) };
    assert!(!w.changed(Some(one)));
    assert!(!w.changed(None));
    assert!(w.changed(Some(two)));
    assert!(!w.changed(Some(two)));
    assert!(w.changed(Some(one)));
    let mut fresh = Watch { seen: None };
    assert!(fresh.changed(Some(one)));
}
