use moq::error::ServeError;
use moq::listings::Listings;

fn sorted(v: Option<Vec<String>>) -> Option<Vec<String>> {
    v.map(|mut v| {
        v.sort();
        v
    })
}

#[test]
fn test_bucket() {
    assert!(Listings::prefix(".") == (".", ""));
    assert!(Listings::prefix(".foo") == (".", "foo"));
    assert!(Listings::prefix(".foo.") == (".foo.", ""));
    assert!(Listings::prefix(".foo.bar") == (".foo.", "bar"));
    assert!(Listings::prefix(".foo.bar.") == (".foo.bar.", ""));
    assert!(Listings::prefix(".foo.bar.baz") == (".foo.bar.", "baz"));
    assert!(Listings::prefix(".foo.bar.baz.") == (".foo.bar.baz.", ""));

    assert!(Listings::prefix("") == ("", ""));
    assert!(Listings::prefix("foo") == ("", "foo"));
    assert!(Listings::prefix("foo.") == ("foo.", ""));
    assert!(Listings::prefix("foo.bar") == ("foo.", "bar"));
    assert!(Listings::prefix("foo.bar.") == ("foo.bar.", ""));
    assert!(Listings::prefix("foo.bar.baz") == ("foo.bar.", "baz"));
    assert!(Listings::prefix("foo.bar.baz.") == ("foo.bar.baz.", ""));
}

#[test]
fn prefix_parts_join_back() {
    for p in ["", ".", "a.b.c", "no_dots", "..x", "é.ü"] {
        let (dir, base) = Listings::prefix(p);
        assert_eq!(format!("{}{}", dir, base), p);
        assert!(dir.is_empty() || dir.ends_with('.'));
        assert!(!base.contains('.'));
    }
}

#[test]
fn listing_lifecycle() {
    let mut listings = Listings::new(String::new());
    let a = listings.register(".origin.a").unwrap().unwrap();
    let b = listings.register(".origin.b").unwrap().unwrap();
    assert_eq!(a.prefix, ".origin.");
    assert_eq!(a.base, "a");
    assert_eq!(
        sorted(listings.subscribe(".origin.")),
        Some(vec!["a".to_string(), "b".to_string()])
    );

    assert!(matches!(listings.register(".origin.a"), Err(ServeError::Duplicate)));

    listings.unregister(a).unwrap();
    assert_eq!(sorted(listings.subscribe(".origin.")), Some(vec!["b".to_string()]));

    listings.unregister(b).unwrap();
    assert_eq!(listings.subscribe(".origin."), None);
}

#[test]
fn register_outside_root_is_ignored() {
    let mut listings = Listings::new(".root.".to_string());
    assert_eq!(listings.broadcast(), ".root.");
    assert!(listings.register(".other.a").unwrap().is_none());
    let reg = listings.register(".root.sub.x").unwrap().unwrap();
    assert_eq!(reg.prefix, "sub.");
    assert_eq!(reg.base, "x");
    assert_eq!(listings.subscribe("sub."), Some(vec!["x".to_string()]));
}

#[test]
fn unregister_twice_is_not_found() {
    let mut listings = Listings::new(String::new());
    let reg = listings.register("d.x").unwrap().unwrap();
    let again = moq::listings::Registration { prefix: reg.prefix.clone(), base: reg.base.clone() };
    listings.unregister(reg).unwrap();
    assert_eq!(listings.unregister(again), Err(ServeError::NotFound));
}
