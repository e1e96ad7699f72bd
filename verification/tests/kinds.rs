use std::hash::{BuildHasher, Hasher};

use diskscope::kinds::builtin::builtin_file;
use diskscope::kinds::{
    ext_key, extension, parse_color, BuildFnv, KindEntry, KindTable, KindsFile, NamedColor,
    UserFile, KIND_FOLDER, KIND_FREE, KIND_OTHER, MAX_EXT,
};

fn named(name: &str, color: &str) -> NamedColor {
    NamedColor {
        name: name.into(),
        color: color.into(),
    }
}

fn entry(name: &str, color: &str, extensions: &[&str]) -> KindEntry {
    KindEntry {
        name: name.into(),
        color: color.into(),
        extensions: extensions.iter().map(|e| e.to_string()).collect(),
    }
}

fn file(packages: &[&str], kinds: Vec<KindEntry>) -> KindsFile {
    KindsFile {
        folder: named("F", "#000001"),
        other: named("O", "#000002"),
        free_space: named("S", "#000003"),
        package_extensions: packages.iter().map(|e| e.to_string()).collect(),
        kinds,
    }
}

fn error(file: &KindsFile) -> String {
    match KindTable::from_json(file) {
        Ok(_) => panic!("the file should not make a table"),
        Err(e) => e.message(),
    }
}

#[test]
fn extension_split() {
    assert_eq!(extension(b"movie.mp4"), b"mp4");
    assert_eq!(extension(b"archive.tar.gz"), b"gz");
    assert_eq!(extension(b".gitignore"), b"");
    assert_eq!(extension(b"Makefile"), b"");
    assert_eq!(extension(b"weird."), b"");
}

#[test]
fn builtin_table_classifies() {
    let t = KindTable::builtin();
    assert_eq!(t.kind(t.classify(b"a.MP4")).name, "Video");
    assert_eq!(t.kind(t.classify(b"a.rs")).name, "Source code");
    assert_eq!(t.kind(t.classify(b"a.ts")).name, "Web");
    assert_eq!(t.classify(b"Makefile"), KIND_OTHER);
    assert_eq!(t.classify(b"no.suchextension"), KIND_OTHER);
    assert!(t.is_package(b"Xcode.app"));
    assert!(!t.is_package(b"notes.txt"));
}

#[test]
fn the_default_table_has_its_known_kinds() {
    let t = KindTable::builtin();
    assert_eq!(t.kind(t.classify(b"a.mov")).name, "Video");
    assert_eq!(t.kind(t.classify(b"a.dylib")).name, "Library");
    assert_eq!(t.kind(t.classify(b"SETUP.EXE")).name, "Executable");
    assert!(t.is_package(b"Cocoa.framework"));
    assert_eq!(t.classify(b"a.app"), KIND_OTHER);
    let video = t.kind(t.classify(b"a.mp4"));
    assert_eq!(video.color, parse_color("#d2691e").unwrap());
}

#[test]
fn no_extension_of_the_default_table_has_two_kinds() {
    let file = builtin_file();
    let mut seen: Vec<String> = Vec::new();
    for kind in &file.kinds {
        for ext in &kind.extensions {
            assert!(!seen.contains(ext), "{ext} is listed twice");
            assert!(!file.package_extensions.contains(ext));
            seen.push(ext.clone());
        }
    }
}

#[test]
fn ext_key_is_case_insensitive_and_bounded() {
    assert_eq!(ext_key(b"PNG"), ext_key(b"png"));
    assert!(ext_key(b"").is_none());
    assert!(ext_key(&[b'x'; MAX_EXT]).is_some());
    assert!(ext_key(&[b'x'; MAX_EXT + 1]).is_none());
}

#[test]
fn bad_colour_is_an_error() {
    let file = KindsFile {
        folder: named("F", "nope"),
        other: named("O", "#000000"),
        free_space: named("S", "#000000"),
        package_extensions: Vec::new(),
        kinds: Vec::new(),
    };
    assert!(KindTable::from_json(&file).is_err());
    assert_eq!(error(&file), "colour \"nope\" must be #rrggbb");
}

#[test]
fn keys_hold_the_bytes_in_order() {
    assert_eq!(ext_key(b"ab"), Some(0x6261));
    assert_eq!(ext_key(b"AB"), Some(0x6261));
    assert_eq!(ext_key(&[0xff; 16]), Some(u128::MAX));
    assert_ne!(ext_key(b"ba"), ext_key(b"ab"));
}

#[test]
fn the_fixed_kinds_come_first() {
    let t = KindTable::builtin();
    assert_eq!(t.kind(KIND_FOLDER).name, "Folder");
    assert_eq!(t.kind(KIND_FOLDER).color, [0x2b, 0x30, 0x38]);
    assert_eq!(t.kind(KIND_OTHER).name, "Other");
    assert_eq!(t.kind(KIND_OTHER).color, [0x6e, 0x76, 0x83]);
    assert_eq!(t.kind(KIND_FREE).name, "Free space");
    assert_eq!(t.kind(KIND_FREE).color, [0x14, 0x17, 0x1c]);
    assert_eq!(t.len(), t.all().len());
    assert!(!t.is_empty());
    assert_eq!(t.kind(t.classify(b"clip.mov")).color, [0xd2, 0x69, 0x1e]);
}

#[test]
fn the_first_kind_to_list_an_extension_keeps_it() {
    let f = file(
        &[],
        vec![
            entry("A", "#111111", &["x", "y"]),
            entry("B", "#222222", &["Y", "z"]),
        ],
    );
    let t = KindTable::from_json(&f).unwrap_or_else(|e| panic!("{}", e.message()));
    assert_eq!(t.len(), 5);
    assert_eq!(t.kind(t.classify(b"f.y")).name, "A");
    assert_eq!(t.kind(t.classify(b"f.Z")).name, "B");
    assert_eq!(t.kind(4).color, [0x22, 0x22, 0x22]);
}

#[test]
fn a_package_extension_is_no_file_kind() {
    let f = file(&["app"], vec![entry("A", "#111111", &["app", "txt"])]);
    let t = KindTable::from_json(&f).unwrap_or_else(|e| panic!("{}", e.message()));
    assert!(t.is_package(b"Thing.APP"));
    assert_eq!(t.classify(b"Thing.app"), KIND_OTHER);
    assert_eq!(t.classify(b"Thing.txt"), 3);
    assert!(!t.is_package(b".app"));
}

#[test]
fn names_that_differ_in_case_are_of_one_kind() {
    let t = KindTable::builtin();
    assert_eq!(t.classify(b"CLIP.MOV"), t.classify(b"clip.mov"));
    assert_eq!(t.is_package(b"A.FrameWork"), t.is_package(b"a.framework"));
}

#[test]
fn colours_must_be_a_hash_and_six_digits() {
    assert_eq!(parse_color("#d2691e").ok(), Some([0xd2, 0x69, 0x1e]));
    assert_eq!(parse_color("#D2691E").ok(), Some([0xd2, 0x69, 0x1e]));
    for bad in ["d2691e", "#fff", "#d2691e0", "red", "", "#ä2691"] {
        assert!(parse_color(bad).is_err(), "{bad}");
    }
    let mut f = file(&[], Vec::new());
    f.other.color = "#00zz00".into();
    assert_eq!(error(&f), "colour \"#00zz00\" is not hex");
    f.other.color = "#00000+".into();
    assert_eq!(error(&f), "colour \"#00000+\" is not hex");
}

#[test]
fn the_first_error_from_the_top_is_reported() {
    let mut f = file(
        &["a-package-extension-that-is-too-long"],
        vec![
            entry("A", "#111111", &["ok", "seventeen-letters"]),
            entry("B", "nope", &[]),
        ],
    );
    assert_eq!(
        error(&f),
        "extension \"seventeen-letters\" in \"A\" is longer than 16 bytes"
    );
    f.kinds[0].extensions[1] = "".into();
    assert_eq!(
        error(&f),
        "extension \"\" in \"A\" is longer than 16 bytes"
    );
    f.kinds[0].extensions.pop();
    assert_eq!(error(&f), "colour \"nope\" must be #rrggbb");
    f.free_space.color = "#12345".into();
    assert_eq!(error(&f), "colour \"#12345\" must be #rrggbb");
}

#[test]
fn a_package_extension_that_is_too_long_is_an_error() {
    let mut f = file(&["ok", "", "seventeen-letters", "another-that-is-too-long"], Vec::new());
    assert_eq!(
        error(&f),
        "extension \"seventeen-letters\" in \"package_extensions\" is longer than 16 bytes"
    );
    f.package_extensions.truncate(2);
    let t = KindTable::from_json(&f).unwrap_or_else(|e| panic!("{}", e.message()));
    assert_eq!(t.len(), 3);
    assert!(t.is_package(b"x.ok"));
    assert!(!t.is_package(b"x."));

    // Sixteen bytes still fit, and it is bytes that count.
    f.package_extensions.push("sixteen-letters!".into());
    assert!(KindTable::from_json(&f).is_ok());
    f.package_extensions.push("\u{e9}\u{e9}\u{e9}\u{e9}\u{e9}\u{e9}\u{e9}\u{e9}x".into());
    assert!(KindTable::from_json(&f).is_err());
}

#[test]
fn too_many_kinds_are_an_error() {
    let mut kinds = Vec::new();
    for _ in 0..65_532 {
        kinds.push(entry("K", "#000000", &[]));
    }
    let mut f = file(&[], kinds);
    assert!(KindTable::from_json(&f).is_ok());
    f.kinds.push(entry("K", "#000000", &[]));
    assert_eq!(error(&f), "too many kinds (max 65534)");
}

#[test]
fn quotes_in_a_message_are_escaped() {
    let mut f = file(&[], Vec::new());
    f.folder.color = "a\"b".into();
    assert_eq!(error(&f), "colour \"a\\\"b\" must be #rrggbb");
}

#[test]
fn a_broken_override_leaves_a_working_table() {
    let (t, note) = KindTable::load_or_builtin(UserFile::Missing);
    assert_eq!(note, None);
    assert_eq!(t.kind(t.classify(b"a.rs")).name, "Source code");

    let (t, note) = KindTable::load_or_builtin(UserFile::Unreadable {
        path: "/p".into(),
        reason: "denied".into(),
    });
    assert_eq!(note.as_deref(), Some("/p: denied"));
    assert_eq!(t.kind(t.classify(b"a.rs")).name, "Source code");

    let mut f = file(&[], vec![entry("Mine", "#010203", &["rs"])]);
    let (t, note) = KindTable::load_or_builtin(UserFile::Parsed {
        path: "/p".into(),
        file: f.clone(),
    });
    assert_eq!(note, None);
    assert_eq!(t.kind(t.classify(b"a.rs")).name, "Mine");

    f.other.color = "x".into();
    let (t, note) = KindTable::load_or_builtin(UserFile::Parsed {
        path: "/p".into(),
        file: f,
    });
    assert_eq!(
        note.as_deref(),
        Some("/p: colour \"x\" must be #rrggbb")
    );
    assert_eq!(t.kind(t.classify(b"a.rs")).name, "Source code");
}

#[test]
fn the_override_lives_under_the_home_directory() {
    assert_eq!(KindTable::user_path(None), None);
    assert_eq!(
        KindTable::user_path(Some(b"/home/u")).as_deref(),
        Some(&b"/home/u/.config/diskscope/kinds.json"[..])
    );
    assert_eq!(
        KindTable::user_path(Some(b"/")).as_deref(),
        Some(&b"/.config/diskscope/kinds.json"[..])
    );
}

#[test]
fn the_hash_is_fnv_1a() {
    let hash = |bytes: &[u8]| {
        let mut h = BuildFnv::default().build_hasher();
        h.write(bytes);
        h.finish()
    };
    assert_eq!(hash(b""), 0xcbf2_9ce4_8422_2325);
    assert_eq!(hash(b"a"), 0xaf63_dc4c_8601_ec8c);
    assert_eq!(hash(b"foobar"), 0x8594_4171_f739_67e8);
    let mut h = BuildFnv::default().build_hasher();
    h.write(b"foo");
    h.write(b"bar");
    assert_eq!(h.finish(), hash(b"foobar"));
}
