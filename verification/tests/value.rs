//! Documents: how one is merged into another, and when two are the same.

use detc::document::{read_json, read_toml, read_yaml, to_json, to_pretty, to_yaml};
use detc::value::{combine, copied, drop_member, get, names, overlay, patch, put, take, Datum};

fn json(body: &str) -> Datum {
    read_json(body).expect("the document is JSON")
}

#[test]
fn a_merge_is_the_one_of_a_merge_patch() {
    for (target, change) in [
        (r#"{"a": "b"}"#, r#"{"a": "c"}"#),
        (r#"{"a": "b"}"#, r#"{"b": "c"}"#),
        (r#"{"a": "b", "b": "c"}"#, r#"{"a": null}"#),
        (r#"{"a": ["b"]}"#, r#"{"a": "c"}"#),
        (r#"{"a": {"b": "c"}}"#, r#"{"a": {"b": "d", "c": null}}"#),
        (r#"{"a": [{"b": "c"}]}"#, r#"{"a": [1]}"#),
        (r#"["a", "b"]"#, r#"["c", "d"]"#),
        (r#"{"a": "foo"}"#, "null"),
        (r#"{"e": null}"#, r#"{"a": 1}"#),
        ("[1, 2]", r#"{"a": "b", "c": null}"#),
        ("{}", r#"{"a": {"bb": {"ccc": null}}}"#),
    ] {
        let mut expected: serde_json::Value = serde_json::from_str(target).unwrap();
        json_patch::merge(&mut expected, &serde_json::from_str(change).unwrap());

        let merged = patch(json(target), &json(change));
        assert!(
            merged.same(&json(&expected.to_string())),
            "{target} with {change} is {} and not {expected}",
            to_json(&merged)
        );
    }
}

#[test]
fn a_full_merge_goes_into_the_arrays() {
    let a = r#"{"list": [1], "map": {"x": 1}, "kept": true}"#;
    let b = r#"{"list": [2], "map": {"y": null}}"#;

    let merged = combine(json(a), &json(b));
    assert!(merged.same(&json(
        r#"{"list": [1, 2], "map": {"x": 1, "y": null}, "kept": true}"#
    )));

    let replaced = overlay(json(a), &json(b));
    assert!(replaced.same(&json(r#"{"list": [2], "map": {"y": null}, "kept": true}"#)));
}

#[test]
fn the_members_of_an_object_are_found_by_name() {
    let Datum::Object(mut entries) = json(r#"{"b": 1, "a": 2}"#) else {
        panic!("an object");
    };

    assert_eq!(names(&entries), ["a", "b"]);
    put(&mut entries, "c".to_string(), Datum::Null);
    assert!(matches!(get(&entries, "c"), Some(Datum::Null)));
    assert!(drop_member(&mut entries, "b").is_some());
    assert!(get(&entries, "b").is_none());
    assert!(drop_member(&mut entries, "b").is_none());
    assert!(Datum::Object(copied(&entries)).same(&json(r#"{"a": 2, "c": null}"#)));

    let mut d = json("[1]");
    assert!(take(&mut d).same(&json("[1]")));
    assert!(d.copy().same(&Datum::Null));
}

#[test]
fn two_documents_are_the_same_whatever_they_were_written_in() {
    let expected = json(r#"{"a": {"b": [1, "x", true]}}"#);

    assert!(read_yaml("a:\n  b: [1, x, true]\n").unwrap().same(&expected));
    assert!(read_toml("[a]\nb = [1, \"x\", true]\n").unwrap().same(&expected));
    assert!(!read_yaml("a: 1\n").unwrap().same(&expected));

    assert_eq!(to_json(&expected), r#"{"a":{"b":[1,"x",true]}}"#);
    assert_eq!(to_pretty(&json(r#"{"a": 1}"#)), "{\n  \"a\": 1\n}");
    assert_eq!(to_yaml(&json(r#"{"a": [1]}"#)), Ok("a:\n- 1\n".to_string()));

    assert!(read_json("{").is_err());
    assert!(read_yaml("a: [").is_err());
    assert!(read_toml("= 1").is_err());

    // A number is the number that it stands for
    assert!(json("1.0").same(&json("1.0")));
    assert!(!json("1").same(&json("1.0")));
}
