use chromelight::fonts::db::{FontDb, FontKey, AHEM_FAMILY, NOTO_SANS_FAMILY};
use chromelight::fonts::error::FontError;

/// A database registered the way the bundled one is: Ahem, then Noto Sans, one face each.
fn bundled_like() -> FontDb {
    let mut db = FontDb::new();
    db.register(&vec![1, 2, 3], AHEM_FAMILY, &vec![(AHEM_FAMILY.to_string(), vec![0])]).expect("ahem");
    db.register(&vec![4, 5], NOTO_SANS_FAMILY, &vec![(NOTO_SANS_FAMILY.to_string(), vec![0])]).expect("noto");
    db
}

#[test]
fn bundled_db_should_contain_exactly_two_families() {
    let db = bundled_like();
    assert_eq!(db.families(), vec![AHEM_FAMILY.to_string(), NOTO_SANS_FAMILY.to_string()]);
    assert_eq!(db.families().len(), 2);
}

#[test]
fn ahem_should_map_from_generic_alias() {
    let db = bundled_like();
    let key = db.key_for("Ahem").expect("Ahem resolves");
    let face = db.face(key).expect("key resolves to a face");
    assert_eq!(face.family, AHEM_FAMILY);
    assert_eq!(face.data, vec![1, 2, 3]);
}

#[test]
fn sans_serif_should_map_to_noto() {
    let db = bundled_like();
    let sans_key = db.key_for("sans-serif").expect("sans-serif resolves");
    let mono_key = db.key_for("monospace").expect("monospace resolves");
    assert_eq!(db.face(sans_key).expect("face").family, NOTO_SANS_FAMILY);
    assert_eq!(db.face(mono_key).expect("face").family, NOTO_SANS_FAMILY);
}

#[test]
fn face_should_return_none_for_unknown_key() {
    let db = bundled_like();
    assert!(db.face(FontKey(2)).is_none());
}

#[test]
fn key_for_should_return_none_for_unknown_family() {
    let db = bundled_like();
    assert!(db.key_for("Comic Sans MS").is_none());
    assert!(db.key_for("serif").is_none());
}

#[test]
fn registration_errors_are_reported_and_change_nothing() {
    let mut db = FontDb::new();
    assert!(matches!(db.register(&vec![], "Ahem", &vec![]), Err(FontError::NoFacesRegistered { name }) if name == "Ahem"));
    let two = vec![("Ahem".to_string(), vec![0]), ("Other".to_string(), vec![0])];
    assert!(matches!(db.register(&vec![], "Ahem", &two), Err(FontError::UnexpectedFamilyCount { count: 2, .. })));
    let wrong = vec![("Arial".to_string(), vec![0])];
    assert!(matches!(
        db.register(&vec![], "Ahem", &wrong),
        Err(FontError::UnexpectedFamilyName { expected, actual }) if expected == "Ahem" && actual == "Arial"
    ));
    assert!(db.families().is_empty());
}

#[test]
fn every_face_of_an_asset_gets_the_next_key() {
    let mut db = FontDb::new();
    db.register(&vec![9], "Coll", &vec![("Coll".to_string(), vec![0, 1, 2])]).expect("collection");
    assert_eq!(db.families().len(), 3);
    assert_eq!(db.face(FontKey(2)).map(|f| (f.key, f.index)), Some((FontKey(2), 2)));
    assert_eq!(db.key_for("Coll"), Some(FontKey(0)));
}

#[test]
fn font_error_messages_name_the_asset() {
    let e = FontError::NoFacesRegistered { name: "Ahem".to_string() };
    assert!(e.message().contains("Ahem"));
}

#[test]
fn font_error_messages_spell_out_each_failure() {
    let e = FontError::NoFacesRegistered { name: "Ahem".to_string() };
    assert_eq!(e.message(), "bundled font `Ahem` registered zero font faces");
    let e = FontError::UnexpectedFamilyCount { name: "Ahem".to_string(), count: 2 };
    assert_eq!(e.message(), "bundled font `Ahem` registered 2 distinct families, expected exactly 1");
    let e = FontError::UnexpectedFamilyName { expected: "Noto Sans".to_string(), actual: "Arial".to_string() };
    assert_eq!(e.message(), "bundled font `Noto Sans` registered under unexpected family name \"Arial\"");
}
