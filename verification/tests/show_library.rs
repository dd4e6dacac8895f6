use wiggles::show_library::{
    ends_with, files_to_remove, index_of_latest, index_of_latest_date, strip_extension,
    trim_extensions,
};

#[test]
fn test_index_of_latest_date() {
    let d0 = "2017-10-01_09:07:32_678945000";
    let d1 = "2017-10-01_09:09:32_456213000";
    let d2 = "2017-10-01_09:09:37_345679785";
    let baddate = "baddate";

    assert_eq!(index_of_latest_date(&[baddate]), None);
    assert_eq!(index_of_latest_date(&[baddate, baddate, baddate]), None);
    assert_eq!(index_of_latest_date(&[d0]), Some(0));
    assert_eq!(index_of_latest_date(&[d0, baddate]), Some(0));
    assert_eq!(index_of_latest_date(&[baddate, d0]), Some(1));
    assert_eq!(index_of_latest_date(&[d0, d1, baddate, d2]), Some(3));
    assert_eq!(index_of_latest_date(&[baddate, d2, d1, baddate, d0]), Some(1));
}

#[test]
fn test_trim_extensions() {
    fn own(strs: Vec<&str>) -> Vec<String> {
        strs.iter().map(|s| s.to_string()).collect()
    }
    let mut vals_good = own(vec!("foo.bar", "baz.bar", "qux.bar"));
    let vals_unchanged = vals_good.clone();
    trim_extensions(&mut vals_good, "");
    assert_eq!(vals_unchanged, vals_good);
    let ext = ".bar";
    trim_extensions(&mut vals_good, ext);
    assert_eq!(vec!("foo", "baz", "qux"), vals_good);

    let mut vals_short = own(vec!("", "f", "fo", "foo", "foo.", "foo.b", "foo.ba"));
    trim_extensions(&mut vals_short, ext);
    assert_eq!(vec!("", "", "", "", "", "f", "fo"), vals_short);
}

#[test]
fn latest_date_ignores_extensions_and_prefers_the_last_of_equals() {
    let d = "2017-10-01_09:07:32_678945000";
    assert_eq!(index_of_latest_date(&["2017-10-01_09:07:32_678945000.wiggles", d]), Some(1));
    assert_eq!(index_of_latest_date(&[d, "2017-10-01_09:07:32_678945000.wiggles_autosave"]), Some(1));
}

#[test]
fn index_of_latest_compares_seconds_then_nanoseconds() {
    assert_eq!(index_of_latest(&[Some((5, 9)), Some((6, 0)), None, Some((6, 0))]), Some(3));
    assert_eq!(index_of_latest(&[Some((5, 9)), Some((5, 10)), Some((5, 1))]), Some(1));
    assert_eq!(index_of_latest(&[None, None]), None);
}

#[test]
fn strip_extension_cuts_at_first_period() {
    assert_eq!(strip_extension("a.b.c"), "a");
    assert_eq!(strip_extension("abc"), "abc");
    assert_eq!(strip_extension(".abc"), "");
}

#[test]
fn ends_with_matches_suffixes() {
    assert!(ends_with("show.wiggles", ".wiggles"));
    assert!(!ends_with("show.wiggles_autosave", ".wiggles"));
    assert!(ends_with("x", ""));
    assert!(!ends_with("s", "longer"));
}

#[test]
fn files_to_remove_refuses_directories_and_strangers() {
    let exts = [".wiggles"];
    let ok = vec![("a.wiggles".to_string(), false), ("b.wiggles".to_string(), false)];
    assert_eq!(files_to_remove(&ok, &exts), Some(vec!["a.wiggles".to_string(), "b.wiggles".to_string()]));
    let with_dir = vec![("a.wiggles".to_string(), false), ("autosave".to_string(), true)];
    assert_eq!(files_to_remove(&with_dir, &exts), None);
    let stranger = vec![("a.wiggles".to_string(), false), ("notes.txt".to_string(), false)];
    assert_eq!(files_to_remove(&stranger, &exts), None);
    assert_eq!(files_to_remove(&[], &exts), Some(vec![]));
}
