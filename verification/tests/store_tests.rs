use blueprint::dir::Dir;
use blueprint::store::Store;
use blueprint::store::StoreError;

fn dir_with(files: &[(&str, &[u8])], subdirs: &[&str]) -> Dir {
    let mut d = Dir::empty();
    for (name, content) in files {
        assert!(d.push_file(name.to_string(), content.to_vec()));
    }
    for name in subdirs {
        assert!(d.push_subdir(name.to_string()));
    }
    d
}

#[test]
fn snapshot_then_list_includes_name_once() {
    let mut store = Store::empty();
    let source = dir_with(&[("a", b"one"), ("b", b"two")], &[]);
    let r = store.new(&source, &"alpha".to_string());
    assert!(r.is_ok());
    let names = store.list();
    let hits = names.iter().filter(|n| n.as_str() == "alpha").count();
    assert_eq!(hits, 1);
}

#[test]
fn snapshot_then_remove_then_list_excludes_name() {
    let mut store = Store::empty();
    let source = dir_with(&[("a", b"one")], &[]);
    assert!(store.new(&source, &"alpha".to_string()).is_ok());
    assert!(store.remove(&"alpha".to_string()).is_ok());
    let names = store.list();
    assert!(names.iter().all(|n| n.as_str() != "alpha"));
    assert_eq!(names.len(), 0);
}

#[test]
fn snapshot_of_taken_name_is_refused_and_store_unchanged() {
    let mut store = Store::empty();
    let source = dir_with(&[("a", b"one")], &[]);
    assert!(store.new(&source, &"alpha".to_string()).is_ok());
    let other = dir_with(&[("b", b"two")], &[]);
    let r = store.new(&other, &"alpha".to_string());
    assert!(matches!(r, Err(StoreError::AlreadyExists)));
    let err = r.unwrap_err();
    assert_eq!(err.exit_code(), 1);
    assert_eq!(
        err.message(&"alpha".to_string()).as_str(),
        "Blueprint alpha already exists"
    );
    let names = store.list();
    assert_eq!(names.len(), 1);
    assert_eq!(names[0].as_str(), "alpha");
    let mut check = Dir::empty();
    assert!(store.create(&mut check, &"alpha".to_string()).is_ok());
    assert_eq!(check.read_file(&"a".to_string()), Some(&b"one".to_vec()));
    assert_eq!(check.read_file(&"b".to_string()), None);
}

#[test]
fn absent_name_is_refused_by_create_and_remove() {
    let mut store = Store::empty();
    let source = dir_with(&[("a", b"one")], &[]);
    assert!(store.new(&source, &"alpha".to_string()).is_ok());

    let mut dest = dir_with(&[("keep", b"kept")], &[]);
    let r = store.create(&mut dest, &"beta".to_string());
    assert!(matches!(r, Err(StoreError::DoesNotExist)));
    let err = r.unwrap_err();
    assert_eq!(err.exit_code(), 1);
    assert_eq!(
        err.message(&"beta".to_string()).as_str(),
        "Blueprint beta does not exist"
    );
    assert_eq!(dest.entry_count(), 1);
    assert_eq!(dest.read_file(&"keep".to_string()), Some(&b"kept".to_vec()));

    let r = store.remove(&"beta".to_string());
    assert!(matches!(r, Err(StoreError::DoesNotExist)));
    assert_eq!(store.list().len(), 1);
}

#[test]
fn round_trip_keeps_files_and_drops_the_subdirectory() {
    let mut store = Store::empty();
    let source = dir_with(&[("a", b"alpha bytes"), ("b", b"beta bytes")], &["sub"]);
    assert!(store.new(&source, &"snap".to_string()).is_ok());
    let mut fresh = Dir::empty();
    assert!(store.create(&mut fresh, &"snap".to_string()).is_ok());
    assert_eq!(fresh.entry_count(), 2);
    assert_eq!(
        fresh.read_file(&"a".to_string()),
        Some(&b"alpha bytes".to_vec())
    );
    assert_eq!(
        fresh.read_file(&"b".to_string()),
        Some(&b"beta bytes".to_vec())
    );
    assert_eq!(fresh.read_file(&"sub".to_string()), None);
    assert!(!fresh.has_entry_named(&"sub".to_string()));
}

#[test]
fn instantiation_overwrites_a_same_named_file_silently() {
    let mut store = Store::empty();
    let source = dir_with(&[("a", b"new content")], &[]);
    assert!(store.new(&source, &"snap".to_string()).is_ok());
    let mut dest = dir_with(&[("a", b"old content"), ("z", b"stays")], &[]);
    let r = store.create(&mut dest, &"snap".to_string());
    assert!(r.is_ok());
    assert_eq!(
        dest.read_file(&"a".to_string()),
        Some(&b"new content".to_vec())
    );
    assert_eq!(dest.read_file(&"z".to_string()), Some(&b"stays".to_vec()));
    assert_eq!(dest.entry_count(), 2);
}

#[test]
fn directories_are_never_copied_or_listed_as_files() {
    let mut store = Store::empty();
    let source = dir_with(&[("real", b"data")], &["fake"]);
    assert!(store.new(&source, &"snap".to_string()).is_ok());
    let mut out = Dir::empty();
    assert!(store.create(&mut out, &"snap".to_string()).is_ok());
    assert_eq!(out.entry_count(), 1);
    assert!(out.has_entry_named(&"real".to_string()));
    assert!(!out.has_entry_named(&"fake".to_string()));

    let mut tampered = Dir::empty();
    assert!(tampered.push_file("kept".to_string(), b"k".to_vec()));
    assert!(tampered.push_subdir("nested".to_string()));
    let mut store2 = Store::empty();
    assert!(store2.add_blueprint("odd".to_string(), tampered));
    let mut out2 = Dir::empty();
    assert!(store2.create(&mut out2, &"odd".to_string()).is_ok());
    assert_eq!(out2.entry_count(), 1);
    assert!(out2.has_entry_named(&"kept".to_string()));
    assert!(!out2.has_entry_named(&"nested".to_string()));
}

#[test]
fn list_keeps_enumeration_order() {
    let mut store = Store::empty();
    let a = dir_with(&[], &[]);
    let b = dir_with(&[], &[]);
    let c = dir_with(&[], &[]);
    assert!(store.new(&a, &"first".to_string()).is_ok());
    assert!(store.new(&b, &"second".to_string()).is_ok());
    assert!(store.new(&c, &"third".to_string()).is_ok());
    let names: Vec<String> = store.list();
    assert_eq!(names, vec!["first", "second", "third"]);
    assert!(store.remove(&"second".to_string()).is_ok());
    assert_eq!(store.list(), vec!["first", "third"]);
}

#[test]
fn empty_source_makes_an_empty_blueprint() {
    let mut store = Store::empty();
    let source = dir_with(&[], &["only_dirs"]);
    assert!(store.new(&source, &"bare".to_string()).is_ok());
    let mut out = Dir::empty();
    assert!(store.create(&mut out, &"bare".to_string()).is_ok());
    assert_eq!(out.entry_count(), 0);
}

#[test]
fn has_blueprint_tracks_contents() {
    let mut store = Store::empty();
    assert!(!store.has_blueprint(&"x".to_string()));
    let d = dir_with(&[("f", b"v")], &[]);
    assert!(store.new(&d, &"x".to_string()).is_ok());
    assert!(store.has_blueprint(&"x".to_string()));
    assert!(store.remove(&"x".to_string()).is_ok());
    assert!(!store.has_blueprint(&"x".to_string()));
}

#[test]
fn duplicate_entry_names_are_refused_by_the_builders() {
    let mut d = Dir::empty();
    assert!(d.push_file("a".to_string(), b"1".to_vec()));
    assert!(!d.push_file("a".to_string(), b"2".to_vec()));
    assert!(!d.push_subdir("a".to_string()));
    assert_eq!(d.entry_count(), 1);
    assert_eq!(d.read_file(&"a".to_string()), Some(&b"1".to_vec()));

    let mut store = Store::empty();
    assert!(store.add_blueprint("n".to_string(), Dir::empty()));
    assert!(!store.add_blueprint("n".to_string(), Dir::empty()));
    assert_eq!(store.list().len(), 1);
}

#[test]
fn write_file_appends_or_overwrites_in_place() {
    let mut d = Dir::empty();
    d.write_file("a".to_string(), b"first".to_vec());
    assert_eq!(d.entry_count(), 1);
    assert_eq!(d.read_file(&"a".to_string()), Some(&b"first".to_vec()));
    d.write_file("b".to_string(), b"second".to_vec());
    assert_eq!(d.entry_count(), 2);
    d.write_file("a".to_string(), b"third".to_vec());
    assert_eq!(d.entry_count(), 2);
    assert_eq!(d.read_file(&"a".to_string()), Some(&b"third".to_vec()));
    assert_eq!(d.read_file(&"b".to_string()), Some(&b"second".to_vec()));
}
