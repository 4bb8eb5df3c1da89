use cleepboard::store::{
    gen_id, relocate_image_paths, simple_hash, AddResult, ClipItem, ImageStep, Settings, Store,
};

fn empty_store(max_history: usize) -> Store {
    let mut settings = Settings::default();
    settings.max_history = max_history;
    Store::load("/home/u/.config/cleepboard".to_string(), Some(settings), None)
}

fn texts(store: &Store) -> Vec<String> {
    store.items.iter().map(|i| i.text.clone().unwrap_or_default()).collect()
}

fn item(id: &str, text: &str, pinned: bool) -> ClipItem {
    ClipItem {
        id: id.to_string(),
        kind: "text".to_string(),
        text: Some(text.to_string()),
        image_path: None,
        preview: text.to_string(),
        pinned,
        timestamp: 1,
    }
}

#[test]
fn default_settings_values() {
    let s = Settings::default();
    assert_eq!(s.max_history, 100);
    assert!(s.auto_paste);
    assert_eq!(s.theme, "system");
    assert_eq!(s.poll_ms, 700);
    assert!(!s.launch_on_login);
    assert_eq!(s.data_dir, "");
}

#[test]
fn load_without_files_gives_defaults() {
    let store = Store::load("/data".to_string(), None, None);
    assert!(store.items.is_empty());
    assert_eq!(store.settings.max_history, 100);
    assert_eq!(store.dir(), "/data");
}

#[test]
fn load_keeps_what_was_read() {
    let mut settings = Settings::default();
    settings.theme = "dark".to_string();
    let store = Store::load("/data".to_string(), Some(settings), Some(vec![item("1", "x", false)]));
    assert_eq!(store.settings.theme, "dark");
    assert_eq!(texts(&store), vec!["x"]);
}

#[test]
fn images_dir_under_data_dir() {
    let store = Store::load("/home/u/.config/cleepboard".to_string(), None, None);
    assert_eq!(store.images_dir(), "/home/u/.config/cleepboard/images");
    let store = Store::load("/data/".to_string(), None, None);
    assert_eq!(store.images_dir(), "/data/images");
    let store = Store::load(String::new(), None, None);
    assert_eq!(store.images_dir(), "images");
}

#[test]
fn blank_text_is_ignored() {
    let mut store = empty_store(100);
    assert!(matches!(store.add_text("  \n\t ".to_string(), 5, "a".to_string()), AddResult::Ignored));
    assert!(matches!(store.add_text(String::new(), 5, "a".to_string()), AddResult::Ignored));
    assert!(matches!(store.add_text("\u{3000}\u{a0}".to_string(), 5, "a".to_string()), AddResult::Ignored));
    assert!(store.items.is_empty());
}

#[test]
fn new_text_is_added_on_top() {
    let mut store = empty_store(100);
    let r = store.add_text("hello".to_string(), 42, "id1".to_string());
    assert!(r.is_new());
    assert_eq!(store.items.len(), 1);
    let it = &store.items[0];
    assert_eq!(it.id, "id1");
    assert_eq!(it.kind, "text");
    assert_eq!(it.text.as_deref(), Some("hello"));
    assert_eq!(it.image_path, None);
    assert_eq!(it.preview, "hello");
    assert!(!it.pinned);
    assert_eq!(it.timestamp, 42);
    store.add_text("world".to_string(), 43, "id2".to_string());
    assert_eq!(texts(&store), vec!["world", "hello"]);
}

#[test]
fn text_with_spaces_is_kept_verbatim() {
    let mut store = empty_store(100);
    store.add_text("  padded  ".to_string(), 1, "a".to_string());
    assert_eq!(store.items[0].text.as_deref(), Some("  padded  "));
}

#[test]
fn duplicate_text_moves_to_top() {
    let mut store = empty_store(100);
    store.add_text("a".to_string(), 1, "1".to_string());
    store.add_text("b".to_string(), 2, "2".to_string());
    let r = store.add_text("a".to_string(), 9, "3".to_string());
    assert!(matches!(r, AddResult::Refreshed));
    assert!(!r.is_new());
    assert_eq!(texts(&store), vec!["a", "b"]);
    assert_eq!(store.items[0].id, "1");
    assert_eq!(store.items[0].timestamp, 9);
}

#[test]
fn preview_is_first_160_chars() {
    let mut store = empty_store(100);
    let long: String = "é".repeat(200);
    store.add_text(long.clone(), 1, "1".to_string());
    assert_eq!(store.items[0].preview.chars().count(), 160);
    assert_eq!(store.items[0].preview, "é".repeat(160));
    assert_eq!(store.items[0].text.as_deref(), Some(long.as_str()));
}

#[test]
fn pinned_items_stay_on_top() {
    let mut store = empty_store(100);
    store.add_text("a".to_string(), 1, "1".to_string());
    store.add_text("b".to_string(), 2, "2".to_string());
    assert!(store.toggle_pin("1"));
    assert_eq!(texts(&store), vec!["a", "b"]);
    assert!(store.items[0].pinned);
    store.add_text("c".to_string(), 3, "3".to_string());
    assert_eq!(texts(&store), vec!["a", "c", "b"]);
    assert!(store.toggle_pin("2"));
    assert_eq!(texts(&store), vec!["b", "a", "c"]);
}

#[test]
fn refreshing_a_pinned_item_keeps_its_place() {
    let mut store = empty_store(100);
    store.add_text("a".to_string(), 1, "1".to_string());
    store.add_text("b".to_string(), 2, "2".to_string());
    store.add_text("c".to_string(), 3, "3".to_string());
    store.toggle_pin("1");
    store.toggle_pin("2");
    assert_eq!(texts(&store), vec!["b", "a", "c"]);
    assert!(matches!(store.add_text("a".to_string(), 5, "x".to_string()), AddResult::Refreshed));
    assert_eq!(texts(&store), vec!["b", "a", "c"]);
    assert_eq!(store.items[1].timestamp, 5);
    assert!(store.items[0].pinned && store.items[1].pinned);
}

#[test]
fn readding_a_text_leaves_one_item_holding_it() {
    let mut store = empty_store(100);
    assert!(store.add_text("x".to_string(), 1, "1".to_string()).is_new());
    store.add_text("y".to_string(), 2, "2".to_string());
    let n = store.items.len();
    assert!(!store.add_text("x".to_string(), 3, "3".to_string()).is_new());
    assert_eq!(store.items.len(), n);
    assert_eq!(store.items.iter().filter(|i| i.text.as_deref() == Some("x")).count(), 1);
}

#[test]
fn image_signature_only_in_directory_is_not_a_duplicate() {
    let mut settings = Settings::default();
    settings.max_history = 100;
    let bytes = vec![5u8; 10];
    let sig = simple_hash(&bytes);
    let dir = format!("/data/{}", sig);
    let mut store = Store::load(dir.clone(), Some(settings), None);
    store.commit_image(format!("{}/images/other.png", dir), 3, 1, "o".to_string());
    match store.add_image(&bytes, 7) {
        ImageStep::Write(p) => assert_eq!(p, format!("{}/images/img_7_{}.png", dir, sig)),
        _ => panic!("expected a new image"),
    }
}

#[test]
fn history_is_trimmed_to_max() {
    let mut store = empty_store(2);
    store.add_text("a".to_string(), 1, "1".to_string());
    store.add_text("b".to_string(), 2, "2".to_string());
    match store.add_text("c".to_string(), 3, "3".to_string()) {
        AddResult::Added(evicted) => {
            assert_eq!(evicted.len(), 1);
            assert_eq!(evicted[0].text.as_deref(), Some("a"));
        }
        _ => panic!("expected a new item"),
    }
    assert_eq!(texts(&store), vec!["c", "b"]);
}

#[test]
fn zero_max_history_keeps_one() {
    let mut store = empty_store(0);
    store.add_text("a".to_string(), 1, "1".to_string());
    store.add_text("b".to_string(), 2, "2".to_string());
    assert_eq!(texts(&store), vec!["b"]);
}

#[test]
fn trimming_never_drops_pinned() {
    let mut store = empty_store(1);
    store.add_text("a".to_string(), 1, "1".to_string());
    store.toggle_pin("1");
    store.add_text("b".to_string(), 2, "2".to_string());
    store.add_text("c".to_string(), 3, "3".to_string());
    assert_eq!(texts(&store), vec!["a", "c"]);
}

#[test]
fn trimming_drops_every_unpinned_item_beyond_the_limit() {
    let items = vec![
        item("1", "p", true),
        item("2", "u1", false),
        item("3", "u2", false),
        item("4", "u3", false),
    ];
    let mut settings = Settings::default();
    settings.max_history = 2;
    let mut store = Store::load("/d".to_string(), Some(settings), Some(items));
    match store.add_text("new".to_string(), 9, "5".to_string()) {
        AddResult::Added(evicted) => {
            let gone: Vec<_> = evicted.iter().map(|i| i.id.clone()).collect();
            assert_eq!(gone, vec!["3", "4"]);
        }
        _ => panic!("expected a new item"),
    }
    assert_eq!(texts(&store), vec!["p", "new", "u1"]);
}

#[test]
fn toggle_twice_restores_pin() {
    let mut store = empty_store(100);
    store.add_text("a".to_string(), 1, "1".to_string());
    store.add_text("b".to_string(), 2, "2".to_string());
    store.toggle_pin("1");
    store.toggle_pin("1");
    assert!(!store.find("1").unwrap().pinned);
    assert_eq!(store.items.len(), 2);
}

#[test]
fn toggle_unknown_id_changes_nothing() {
    let mut store = empty_store(100);
    store.add_text("a".to_string(), 1, "1".to_string());
    assert!(!store.toggle_pin("nope"));
    assert_eq!(texts(&store), vec!["a"]);
}

#[test]
fn find_returns_the_item() {
    let mut store = empty_store(100);
    store.add_text("a".to_string(), 1, "1".to_string());
    store.add_text("b".to_string(), 2, "2".to_string());
    assert_eq!(store.find("1").unwrap().text.as_deref(), Some("a"));
    assert!(store.find("3").is_none());
}

#[test]
fn delete_removes_the_item() {
    let mut store = empty_store(100);
    store.add_text("a".to_string(), 1, "1".to_string());
    store.add_text("b".to_string(), 2, "2".to_string());
    let removed = store.delete("1").unwrap();
    assert_eq!(removed.text.as_deref(), Some("a"));
    assert!(store.find("1").is_none());
    assert_eq!(texts(&store), vec!["b"]);
    assert!(store.delete("1").is_none());
}

#[test]
fn clear_keeping_pinned() {
    let mut store = empty_store(100);
    store.add_text("a".to_string(), 1, "1".to_string());
    store.add_text("b".to_string(), 2, "2".to_string());
    store.add_text("c".to_string(), 3, "3".to_string());
    store.toggle_pin("2");
    let removed = store.clear(true);
    assert_eq!(texts(&store), vec!["b"]);
    let gone: Vec<_> = removed.iter().map(|i| i.id.clone()).collect();
    assert_eq!(gone, vec!["3", "1"]);
}

#[test]
fn clear_everything() {
    let mut store = empty_store(100);
    store.add_text("a".to_string(), 1, "1".to_string());
    store.toggle_pin("1");
    store.add_text("b".to_string(), 2, "2".to_string());
    let removed = store.clear(false);
    assert!(store.items.is_empty());
    assert_eq!(removed.len(), 2);
}

#[test]
fn fnv_hash_values() {
    assert_eq!(simple_hash(b""), "cbf29ce484222325");
    assert_eq!(simple_hash(b"a"), "af63dc4c8601ec8c");
    assert_eq!(simple_hash(b"foobar"), "85944171f73967e8");
}

#[test]
fn ids_are_hex_nanos() {
    assert_eq!(gen_id(0), "0");
    assert_eq!(gen_id(255), "ff");
    assert_eq!(gen_id(1_700_000_000_123_456_789), "17979cfe3d85cd15");
}

#[test]
fn empty_image_is_ignored() {
    let mut store = empty_store(100);
    assert!(matches!(store.add_image(&[], 5), ImageStep::Ignored));
    assert!(store.items.is_empty());
}

#[test]
fn new_image_is_written_then_committed() {
    let mut store = empty_store(100);
    let bytes = vec![7u8; 2048];
    let sig = simple_hash(&bytes);
    let path = match store.add_image(&bytes, 1700) {
        ImageStep::Write(p) => p,
        _ => panic!("expected a path"),
    };
    assert_eq!(path, format!("/home/u/.config/cleepboard/images/img_1700_{}.png", sig));
    assert!(store.items.is_empty());
    let evicted = store.commit_image(path.clone(), bytes.len(), 1700, "img1".to_string());
    assert!(evicted.is_empty());
    let it = &store.items[0];
    assert_eq!(it.kind, "image");
    assert_eq!(it.text, None);
    assert_eq!(it.image_path.as_deref(), Some(path.as_str()));
    assert_eq!(it.preview, "Image \u{b7} 2 KB");
    // the same bytes again: the item moves up instead of a second copy
    store.add_text("t".to_string(), 1701, "t1".to_string());
    assert!(matches!(store.add_image(&bytes, 1800), ImageStep::Refreshed));
    assert_eq!(store.items.len(), 2);
    assert_eq!(store.items[0].id, "img1");
    assert_eq!(store.items[0].timestamp, 1800);
}

#[test]
fn pinned_duplicate_image_moves_to_the_front() {
    let mut store = empty_store(100);
    let bytes = vec![9u8; 64];
    let path = match store.add_image(&bytes, 10) {
        ImageStep::Write(p) => p,
        _ => panic!("expected a path"),
    };
    store.commit_image(path, bytes.len(), 10, "img".to_string());
    store.add_text("t".to_string(), 11, "t1".to_string());
    assert!(store.toggle_pin("t1"));
    assert!(store.toggle_pin("img"));
    assert_eq!(store.items[0].id, "img");
    assert_eq!(store.items[1].id, "t1");
    store.toggle_pin("t1");
    store.toggle_pin("t1");
    assert_eq!(store.items[0].id, "t1");
    assert_eq!(store.items[1].id, "img");
    assert!(matches!(store.add_image(&bytes, 20), ImageStep::Refreshed));
    assert_eq!(store.items.len(), 2);
    assert_eq!(store.items[0].id, "img");
    assert_eq!(store.items[0].timestamp, 20);
    assert!(store.items[0].pinned);
    assert_eq!(store.items[1].id, "t1");
    assert!(store.items[1].pinned);
}

#[test]
fn inserting_respects_pins() {
    let mut store = empty_store(100);
    store.items = vec![item("a", "a", true), item("b", "b", false)];
    store.insert_respecting_pins(item("c", "c", false));
    assert_eq!(texts(&store), vec!["a", "c", "b"]);
    store.insert_respecting_pins(item("d", "d", true));
    assert_eq!(texts(&store), vec!["d", "a", "c", "b"]);
    store.items = vec![item("e", "e", false)];
    store.insert_respecting_pins(item("f", "f", false));
    assert_eq!(texts(&store), vec!["f", "e"]);
}

#[test]
fn small_image_preview_in_bytes() {
    let mut store = empty_store(100);
    store.commit_image("/x/img.png".to_string(), 1023, 1, "i".to_string());
    assert_eq!(store.items[0].preview, "Image \u{b7} 1023 B");
    store.commit_image("/x/img2.png".to_string(), 1024, 1, "j".to_string());
    assert_eq!(store.items[0].preview, "Image \u{b7} 1 KB");
}

#[test]
fn relocating_image_paths() {
    let mut img = item("1", "", false);
    img.kind = "image".to_string();
    img.text = None;
    img.image_path = Some("/old/images/img_1_ab.png".to_string());
    let txt = item("2", "hello", false);
    let out = relocate_image_paths(vec![img, txt], "/new/images");
    assert_eq!(out[0].image_path.as_deref(), Some("/new/images/img_1_ab.png"));
    assert_eq!(out[1].image_path, None);
    assert_eq!(out[1].text.as_deref(), Some("hello"));
}

#[test]
fn settings_with_data_dir() {
    let s = Settings::default().with_data_dir("/mnt/x");
    assert_eq!(s.data_dir, "/mnt/x");
    assert_eq!(s.max_history, 100);
    assert_eq!(s.theme, "system");
}
