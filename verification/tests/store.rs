//! Stores: objects, manifests, branches and references.

use litegraft::files::Files;
use litegraft::store::default_store_dir;
use litegraft::store::escape_line;
use litegraft::store::marker_text;
use litegraft::store::page_hash;
use litegraft::store::state_id;
use litegraft::store::unescape_line;
use litegraft::store::validate_branch_name;
use litegraft::store::Head;
use litegraft::store::Manifest;
use litegraft::store::Store;

fn fresh() -> Store {
    Store::init("/tmp/s", false).unwrap()
}

fn sample_manifest(page_size: u32, pages: &[&[u8]]) -> Manifest {
    let hashes: Vec<String> = pages.iter().map(|p| page_hash(p)).collect();
    Manifest {
        id: state_id(page_size, &hashes),
        parent: None,
        branch: "main".into(),
        created: 1_760_000_000,
        message: "first".into(),
        page_size,
        page_hashes: hashes,
    }
}

#[test]
fn init_creates_marker_and_unborn_main() {
    let mut store = fresh();
    assert_eq!(store.head().unwrap(), Head::Branch("main".into()));
    assert_eq!(
        store.branch_head("main").unwrap(),
        None,
        "main is unborn until first snap"
    );
    assert!(Store::init("/tmp/s", true).is_err(), "double init must fail");
    // HEAD can also point directly at a snapshot (detached).
    let id = "c".repeat(64);
    store.set_head(&Head::Detached(id.clone()));
    assert_eq!(store.head().unwrap(), Head::Detached(id));
}

#[test]
fn open_rejects_a_plain_directory() {
    let none = || Files::new();
    let e = Store::open("/tmp/plain", None, None, none(), none(), none(), Vec::new()).unwrap_err();
    assert!(e.message().contains("litegraft init"), "{}", e.message());
    let other = b"litegraft store 2\n".to_vec();
    let e = Store::open("/tmp/plain", Some(&other), None, none(), none(), none(), Vec::new()).unwrap_err();
    assert_eq!(e.message(), "unrecognized store format at /tmp/plain");
    let noise = vec![0xff, 0xfe];
    let e = Store::open("/tmp/plain", Some(&noise), None, none(), none(), none(), Vec::new()).unwrap_err();
    assert!(e.message().contains("litegraft init"));
}

#[test]
fn open_takes_what_the_directory_holds() {
    let marker = marker_text().as_bytes().to_vec();
    let mut refs = Files::new();
    refs.put("main", b"abc\r\n \n".to_vec());
    let store = Store::open(
        "/tmp/s",
        Some(&marker),
        Some(b"ref: main\n".to_vec()),
        Files::new(),
        Files::new(),
        refs,
        Vec::new(),
    )
    .unwrap();
    assert_eq!(store.head().unwrap(), Head::Branch("main".into()));
    assert_eq!(store.branch_head("main").unwrap(), Some("abc".into()));
}

#[test]
fn head_can_be_unreadable() {
    let mut store = fresh();
    store.head_file = Some(b"garbage\n".to_vec());
    assert_eq!(
        store.head().unwrap_err().message(),
        "unparseable HEAD: \"garbage\""
    );
    store.head_file = Some(vec![0xff]);
    assert_eq!(
        store.head().unwrap_err().message(),
        "stream did not contain valid UTF-8"
    );
    store.head_file = None;
    assert!(store.head().is_err());
}

#[test]
fn objects_roundtrip_and_dedup() {
    let mut store = fresh();
    let page = vec![7u8; 512];
    let hash = page_hash(&page);
    assert!(store.write_object(&hash, &page), "first write stores");
    assert!(!store.write_object(&hash, &page), "second write dedups");
    assert_eq!(store.read_object(&hash).unwrap(), page);
    assert_eq!(store.list_objects(), vec![hash]);
}

#[test]
fn removed_objects_are_gone() {
    let mut store = fresh();
    store.write_object("aa11", b"x");
    store.write_object("bb22", b"y");
    assert!(store.has_object("aa11"));
    assert!(store.remove_object("aa11"));
    assert!(!store.remove_object("aa11"));
    assert!(!store.has_object("aa11"));
    assert_eq!(store.list_objects(), vec!["bb22".to_string()]);
}

#[test]
fn unfinished_objects_are_not_listed() {
    let mut store = fresh();
    store.write_object("b.tmp", b"half");
    store.write_object("c", b"whole");
    store.write_object("a", b"whole");
    assert_eq!(store.list_objects(), vec!["a".to_string(), "c".to_string()]);
}

#[test]
fn missing_object_error_mentions_verify() {
    let store = fresh();
    let e = store.read_object(&"0".repeat(64)).unwrap_err();
    assert!(e.message().contains("verify"), "{}", e.message());
}

#[test]
fn manifest_roundtrips_including_escaped_message() {
    let mut store = fresh();
    let mut m = sample_manifest(512, &[&[1u8; 512], &[2u8; 512]]);
    m.message = "line one\nline two \\ backslash".into();
    store.write_manifest(&m).unwrap();
    let back = store.read_manifest(&m.id).unwrap();
    assert_eq!(back, m);
}

#[test]
fn manifest_text_is_exact() {
    let mut store = fresh();
    let mut m = sample_manifest(512, &[b"p"]);
    m.parent = Some("d".repeat(64));
    m.message = "a\nb".into();
    store.write_manifest(&m).unwrap();
    let text = store.snaps.get(&m.id).unwrap().clone();
    assert_eq!(
        String::from_utf8(text).unwrap(),
        format!(
            "litegraft snapshot 1\nid {}\nparent {}\nbranch main\ncreated 1760000000\nmessage a\\nb\npagesize 512\npages 1\n--\n{}\n",
            m.id,
            "d".repeat(64),
            m.page_hashes[0]
        )
    );
}

#[test]
fn message_loses_a_carriage_return_at_its_end() {
    let mut store = fresh();
    let mut m = sample_manifest(512, &[b"p"]);
    m.message = "typed on a terminal\r".into();
    store.write_manifest(&m).unwrap();
    let back = store.read_manifest(&m.id).unwrap();
    assert_eq!(back.message, "typed on a terminal");
    assert_eq!(back.page_hashes, m.page_hashes);
}

#[test]
fn manifest_with_tampered_page_hash_is_rejected() {
    // A flipped hash changes the recomputed state id -> integrity error.
    let mut store = fresh();
    let m = sample_manifest(512, &[&[1u8; 512]]);
    store.write_manifest(&m).unwrap();
    let text = String::from_utf8(store.snaps.get(&m.id).unwrap().clone()).unwrap();
    let tampered = text.replace(&m.page_hashes[0], &"a".repeat(64));
    store.snaps.put(&m.id, tampered.into_bytes());
    let e = store.read_manifest(&m.id).unwrap_err();
    assert!(e.message().contains("does not match"), "{}", e.message());
}

#[test]
fn malformed_manifests_are_named() {
    let mut store = fresh();
    let m = sample_manifest(512, &[b"p"]);
    store.write_manifest(&m).unwrap();
    let text = String::from_utf8(store.snaps.get(&m.id).unwrap().clone()).unwrap();
    let mut complaint = |text: String| -> String {
        store.snaps.put("x", text.into_bytes());
        store.read_manifest("x").unwrap_err().message()
    };
    assert_eq!(complaint("".into()), "bad manifest header");
    assert_eq!(complaint("nonsense\n".into()), "bad manifest header");
    assert_eq!(
        complaint(text.replace("branch main", "branchmain")),
        "bad manifest line \"branchmain\""
    );
    assert_eq!(
        complaint(text.replace("parent -\n", "")),
        "manifest missing field \"parent\""
    );
    assert_eq!(
        complaint(text.replace("pages 1", "pages one")),
        "bad pages field"
    );
    assert_eq!(
        complaint(text.replace("pages 1", "pages 2")),
        "manifest lists 1 page hashes but declares 2"
    );
    assert_eq!(
        complaint(text.replace("created 1760000000", "created -1")),
        "bad created field"
    );
    assert_eq!(
        complaint(text.replace("pagesize 512", "pagesize 4294967296")),
        "bad pagesize field"
    );
    assert_eq!(
        complaint(text.replace("message first\n", "")),
        "manifest missing field \"message\""
    );
    assert_eq!(
        complaint(format!("{text}zz\n")),
        "bad page hash line \"zz\""
    );
    assert_eq!(
        store.read_manifest("absent").unwrap_err().message(),
        "no snapshot absent"
    );
    store.snaps.put("y", vec![0xff]);
    assert_eq!(
        store.read_manifest("y").unwrap_err().message(),
        "no snapshot y"
    );
}

#[test]
fn manifest_numbers_may_carry_a_plus_sign() {
    let mut store = fresh();
    let m = sample_manifest(512, &[b"p"]);
    store.write_manifest(&m).unwrap();
    let text = String::from_utf8(store.snaps.get(&m.id).unwrap().clone()).unwrap();
    let text = text.replace("pages 1", "pages +01").replace('\n', "\r\n");
    store.snaps.put(&m.id, text.into_bytes());
    assert_eq!(store.read_manifest(&m.id).unwrap(), m);
}

#[test]
fn manifest_page_count() {
    assert_eq!(sample_manifest(512, &[b"a", b"b"]).page_count(), 2);
}

#[test]
fn state_id_depends_on_order_size_and_content() {
    let a = page_hash(b"a");
    let b = page_hash(b"b");
    let id1 = state_id(512, &[a.clone(), b.clone()]);
    let id2 = state_id(512, &[b, a.clone()]);
    let id3 = state_id(1024, &[a.clone(), page_hash(b"b")]);
    assert_ne!(id1, id2, "page order matters");
    assert_ne!(id1, id3, "page size matters");
    assert_eq!(
        id1,
        state_id(512, &[a, page_hash(b"b")]),
        "same state, same id"
    );
}

#[test]
fn state_id_is_the_hash_of_the_state_text() {
    let a = page_hash(b"a");
    let text = format!("litegraft-state 1\n512\n{a}\n");
    assert_eq!(state_id(512, &[a]), page_hash(text.as_bytes()));
}

#[test]
fn branches_set_list_and_resolve() {
    let mut store = fresh();
    let m = sample_manifest(512, &[&[1u8; 512]]);
    store.write_manifest(&m).unwrap();
    store.set_branch("main", &m.id).unwrap();
    store.set_branch("fix/late-fees", &m.id).unwrap();
    let branches = store.list_branches().unwrap();
    assert_eq!(branches.len(), 2);
    assert_eq!(branches[0], ("fix/late-fees".to_string(), m.id.clone()));
    assert_eq!(branches[1], ("main".to_string(), m.id.clone()));
    assert_eq!(store.resolve("main").unwrap(), m.id);
    assert_eq!(
        store.resolve(&m.id[..8]).unwrap(),
        m.id,
        "unique prefix resolves"
    );
    assert_eq!(store.resolve(&m.id).unwrap(), m.id, "full id resolves");
}

#[test]
fn damaged_objects_are_written_again() {
    let mut store = fresh();
    let page = vec![7u8; 512];
    let hash = page_hash(&page);
    store.objects.put(&hash, vec![7u8; 100]);
    assert!(store.write_object(&hash, &page), "a torn object is replaced");
    assert!(!store.write_object(&hash, &page), "a whole one is kept");
    assert_eq!(store.read_object(&hash).unwrap(), page);
}

#[test]
fn branch_names_are_paths() {
    let mut store = fresh();
    store.set_branch("fix/x", "one").unwrap();
    for name in ["fix/x", "fix//x", "fix/./x", "fix/././/x"] {
        assert!(store.branch_exists(name), "{name}");
        assert_eq!(store.branch_head(name).unwrap(), Some("one".into()));
        assert_eq!(store.resolve(name).unwrap(), "one");
    }
    store.set_branch("fix//x", "two").unwrap();
    assert_eq!(
        store.list_branches().unwrap(),
        vec![("fix/x".to_string(), "two".to_string())]
    );
    // The directory is there, but is no branch.
    for name in ["fix", "fix/."] {
        assert!(store.branch_exists(name));
        assert_eq!(
            store.branch_head(name).unwrap_err().message(),
            format!("branch {name:?} is a directory")
        );
        assert!(store.resolve(name).is_err());
        assert!(store.set_branch(name, "three").is_err());
    }
    // Nothing can lie below a branch.
    for name in ["fix/x/y", "fix/x/y/z", "fix/x/."] {
        assert!(!store.branch_exists(name));
        assert_eq!(
            store.branch_head(name).unwrap_err().message(),
            format!("branch {name:?} lies below another branch")
        );
        assert!(store.set_branch(name, "three").is_err());
    }
    // A name that says it is a directory is never written.
    assert!(!store.branch_exists("new/."));
    assert_eq!(store.branch_head("new/.").unwrap(), None);
    assert!(store.resolve("new/.").unwrap_err().message().contains("unknown ref"));
    let before = store.clone();
    assert!(store.set_branch("new/.", "three").is_err());
    assert_eq!(store, before);
    // A name that merely starts like another is another.
    assert!(!store.branch_exists("fi"));
    store.set_branch("fix-x", "three").unwrap();
    store.set_branch("fix/xy", "four").unwrap();
    assert_eq!(store.branch_head("fix/x").unwrap(), Some("two".into()));
    assert_eq!(store.list_branches().unwrap().len(), 3);
}

#[test]
fn empty_directories_are_taken_names() {
    let marker = marker_text().as_bytes().to_vec();
    let mut store = Store::open(
        "/tmp/s",
        Some(&marker),
        Some(b"ref: main\n".to_vec()),
        Files::new(),
        Files::new(),
        Files::new(),
        vec!["old".to_string(), "old/deep".to_string()],
    )
    .unwrap();
    for name in ["old", "old/deep", "old//deep"] {
        assert!(store.branch_exists(name), "{name}");
        assert_eq!(
            store.branch_head(name).unwrap_err().message(),
            format!("branch {name:?} is a directory")
        );
        assert!(store.resolve(name).is_err());
        assert!(store.set_branch(name, "one").is_err());
    }
    assert!(!store.branch_exists("old/other"));
    assert_eq!(store.list_branches().unwrap(), vec![]);
    store.set_branch("old/other", "one").unwrap();
    store.set_branch("old/deep/er", "two").unwrap();
    assert_eq!(store.list_branches().unwrap().len(), 2);
}

#[test]
fn a_refused_branch_may_leave_its_directory() {
    let mut store = fresh();
    store.set_branch("main", "one").unwrap();
    assert!(!store.branch_exists("a"));
    assert!(store.set_branch("a/b/.", "two").is_err());
    assert!(store.branch_exists("a"));
    assert!(!store.branch_exists("a/b"));
    assert_eq!(store.branch_head("main").unwrap(), Some("one".into()));
    assert_eq!(store.list_branches().unwrap().len(), 1);
}

#[test]
fn ids_are_paths_below_the_snapshots() {
    let mut store = fresh();
    let m = sample_manifest(512, &[b"p"]);
    store.write_manifest(&m).unwrap();
    assert!(store.has_snapshot(&m.id));
    // The directory of the snapshots itself is there, and those above it.
    for id in ["", ".", "./", "..", "../.."] {
        assert!(store.has_snapshot(id), "{id:?}");
        assert_eq!(
            store.read_manifest(id).unwrap_err().message(),
            format!("no snapshot {id}")
        );
    }
    let dotted = format!("./{}", m.id);
    assert!(store.has_snapshot(&dotted));
    assert_eq!(store.read_manifest(&dotted).unwrap(), m);
    for id in [format!("{}/", m.id), format!("{}/.", m.id), format!("x/{}", m.id)] {
        assert!(!store.has_snapshot(&id), "{id}");
        assert!(store.read_manifest(&id).is_err());
    }
    for id in ["", "..", "a/b", "a/", "a/."] {
        let mut odd = m.clone();
        odd.id = id.to_string();
        assert_eq!(
            store.write_manifest(&odd).unwrap_err().message(),
            format!("no snapshot can have the id {id:?}")
        );
    }
    assert_eq!(store.list_snapshots(), vec![m.id]);
}

#[test]
fn resolve_rejects_unknown_and_short_prefixes() {
    let store = fresh();
    assert!(store.resolve("nope").is_err());
    assert!(
        store.resolve("abc").is_err(),
        "3 hex chars is below the prefix minimum"
    );
    assert_eq!(
        store.resolve("nope").unwrap_err().message(),
        "unknown ref \"nope\" (not a branch, snapshot id, or unique prefix)"
    );
}

#[test]
fn ambiguous_prefixes_are_refused_and_branches_come_first() {
    let mut store = fresh();
    let one = format!("abcd{}", "0".repeat(60));
    let two = format!("abcd{}", "1".repeat(60));
    store.snaps.put(&one, Vec::new());
    store.snaps.put(&two, Vec::new());
    store.snaps.put("abcd", Vec::new());
    assert_eq!(store.list_snapshots(), vec![one.clone(), two.clone()]);
    assert_eq!(
        store.resolve("abcd").unwrap_err().message(),
        "ambiguous ref \"abcd\" (2 snapshots match)"
    );
    assert_eq!(store.resolve("abcd1").unwrap(), two);
    store.set_branch("abcd", &one).unwrap();
    assert_eq!(store.resolve("abcd").unwrap(), one);
    assert!(store.branch_exists("abcd"));
    assert!(!store.branch_exists("abcde"));
    assert!(!store.branch_exists("not a name"));
}

#[test]
fn branch_name_validation() {
    for good in ["main", "fix/late-fees", "v0.1-wip", "A_b.c"] {
        assert!(validate_branch_name(good).is_ok(), "{good}");
    }
    for bad in [
        "",
        "-x",
        ".hidden",
        "a..b",
        "a/",
        "sp ace",
        "@",
        &"a".repeat(101),
    ] {
        assert!(validate_branch_name(bad).is_err(), "{bad:?}");
    }
    let hexy: String = "ab".repeat(32);
    assert!(
        validate_branch_name(&hexy).is_err(),
        "64-hex name would shadow ids"
    );
}

#[test]
fn branch_name_complaints() {
    let say = |name: &str| validate_branch_name(name).unwrap_err().message();
    assert_eq!(say(""), "invalid branch name \"\": empty or too long");
    assert_eq!(say("/x"), "invalid branch name \"/x\": bad leading character");
    assert_eq!(say("a b"), "invalid branch name \"a b\"");
    let hexy = "AB".repeat(32);
    assert_eq!(
        say(&hexy),
        format!("invalid branch name \"{hexy}\": looks like a snapshot id")
    );
    assert!(validate_branch_name(&"g".repeat(64)).is_ok());
    assert!(validate_branch_name(&"a".repeat(100)).is_ok());
    let mut store = fresh();
    assert!(store.set_branch("a b", "x").is_err());
    assert!(store.branch_head("a b").is_err());
}

#[test]
fn escape_roundtrip_edge_cases() {
    for msg in [
        "",
        "plain",
        "trailing backslash \\",
        "\\n literal",
        "multi\nline\nmsg",
    ] {
        assert_eq!(unescape_line(&escape_line(msg)), msg, "{msg:?}");
    }
}

#[test]
fn unescape_leaves_other_backslashes() {
    assert_eq!(escape_line("a\\\nb"), "a\\\\\\nb");
    assert_eq!(unescape_line("a\\tb\\"), "a\\tb\\");
}

#[test]
fn default_store_lies_next_to_the_database() {
    assert_eq!(default_store_dir("/data/app.db"), "/data/app.db.litegraft");
}

#[test]
fn files_keep_their_names_in_order() {
    let mut f = Files::new();
    for name in ["m", "a", "z", "é", "aa", "m"] {
        f.put(name, name.as_bytes().to_vec());
    }
    assert_eq!(f.names, vec!["a", "aa", "m", "z", "é"]);
    assert_eq!(f.get("é").unwrap(), &"é".as_bytes().to_vec());
    assert!(f.get("b").is_none());
    assert!(f.remove("m"));
    assert!(!f.contains("m"));
    assert_eq!(f.names.len(), 4);
}

#[test]
fn paths_of_stored_files() {
    let store = fresh();
    let hash = page_hash(b"p");
    assert_eq!(
        store.object_path(&hash),
        Some(format!("/tmp/s/objects/{}/{}", &hash[..2], &hash[2..]))
    );
    assert_eq!(store.object_path("a"), None);
    assert_eq!(store.object_path("\u{e9}x"), Some("/tmp/s/objects/\u{e9}/x".to_string()));
    assert_eq!(store.object_path("a\u{e9}"), None);
    assert_eq!(store.snap_path("id"), "/tmp/s/snaps/id");
    assert_eq!(
        store.branch_path("fix/late-fees").unwrap(),
        "/tmp/s/refs/heads/fix/late-fees"
    );
    assert!(store.branch_path("../escape").is_err());
}

#[test]
fn changes_between_two_sets_of_files() {
    let mut before = Files::new();
    before.put("a", vec![1]);
    before.put("b", vec![2]);
    before.put("c", vec![3]);
    let mut after = before.clone();
    after.put("b", vec![9]);
    after.put("d", vec![4]);
    after.remove("a");
    assert_eq!(after.added_since(&before), vec!["d"]);
    assert_eq!(after.changed_since(&before), vec!["b", "d"]);
    assert_eq!(before.added_since(&after), vec!["a"]);
    assert!(after.changed_since(&after).is_empty());
}
