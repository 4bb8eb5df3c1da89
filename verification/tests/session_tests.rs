use cleepboard::clipboard::{Backend, ClipContent};
use cleepboard::session::{
    base64_encode, choose_store_dir, config_dir_for, content_signature, data_dir_change, has_arg,
    image_data_url, poll_interval, sig_image, sig_text, starts_hidden, tray_action, AppState, CopyPlan,
    DirChange, TrayAction, WatchDecision,
};
use cleepboard::store::{ClipItem, Settings, Store};

fn state() -> AppState {
    let mut store = Store::load("/d".to_string(), None, None);
    store.add_text("hello".to_string(), 1, "t1".to_string());
    store.commit_image("/d/images/a.png".to_string(), 10, 2, "i1".to_string());
    AppState::new(store, Backend::Wayland)
}

#[test]
fn signatures() {
    assert_eq!(sig_text("abc"), "t:abc");
    assert_eq!(sig_image(b"a"), "i:af63dc4c8601ec8c");
    assert_eq!(sig_image(&[]), "i:cbf29ce484222325");
    assert_eq!(content_signature(&ClipContent::Image(b"a".to_vec())), Some("i:af63dc4c8601ec8c".to_string()));
    assert_eq!(content_signature(&ClipContent::Empty), None);
}

#[test]
fn base64_values() {
    assert_eq!(base64_encode(b""), "");
    assert_eq!(base64_encode(b"f"), "Zg==");
    assert_eq!(base64_encode(b"fo"), "Zm8=");
    assert_eq!(base64_encode(b"foo"), "Zm9v");
    assert_eq!(base64_encode(b"foobar"), "Zm9vYmFy");
    assert_eq!(base64_encode(&[0xff, 0xfe]), "//4=");
    assert_eq!(base64_encode(&[0xfb, 0xef, 0xbe]), "++++");
    assert_eq!(image_data_url(b"Man"), "data:image/png;base64,TWFu");
}

#[test]
fn watcher_records_new_content() {
    let st = state();
    match st.observe(&None, &ClipContent::Text("x".to_string())) {
        WatchDecision::Record(s) => assert_eq!(s, "t:x"),
        _ => panic!("expected a record"),
    }
}

#[test]
fn watcher_ignores_unchanged_and_empty() {
    let st = state();
    let last = Some("t:x".to_string());
    assert!(matches!(st.observe(&last, &ClipContent::Text("x".to_string())), WatchDecision::Ignore));
    assert!(matches!(st.observe(&last, &ClipContent::Empty), WatchDecision::Ignore));
}

#[test]
fn watcher_skips_own_values() {
    let mut st = state();
    st.note_self_set(sig_text("mine"));
    match st.observe(&None, &ClipContent::Text("mine".to_string())) {
        WatchDecision::Remember(s) => assert_eq!(s, "t:mine"),
        _ => panic!("expected remember"),
    }
    st.note_self_set(sig_image(&[1, 2, 3, 4]));
    assert!(matches!(st.observe(&None, &ClipContent::Image(vec![1, 2, 3, 4])), WatchDecision::Remember(_)));
}

#[test]
fn copy_plans() {
    let st = state();
    match st.copy_plan("t1") {
        CopyPlan::Text(t) => assert_eq!(t, "hello"),
        _ => panic!("expected text"),
    }
    match st.copy_plan("i1") {
        CopyPlan::Image(p) => assert_eq!(p.as_deref(), Some("/d/images/a.png")),
        _ => panic!("expected image"),
    }
    assert!(matches!(st.copy_plan("nope"), CopyPlan::Missing));
}

#[test]
fn poll_interval_floor() {
    let mut s = Settings::default();
    assert_eq!(poll_interval(&s), 700);
    s.poll_ms = 10;
    assert_eq!(poll_interval(&s), 150);
}

#[test]
fn data_dir_requests() {
    match data_dir_change("/a/b", "   ") {
        DirChange::Rejected(m) => assert_eq!(m, "Directory path cannot be empty"),
        _ => panic!("expected a refusal"),
    }
    assert!(matches!(data_dir_change("/a/b", "/a/b/"), DirChange::Unchanged));
    assert!(matches!(data_dir_change("/a/b", "/a/./b"), DirChange::Unchanged));
    assert!(matches!(data_dir_change("/a/b", "//a//b"), DirChange::Unchanged));
    assert!(matches!(data_dir_change("/a/b", "/a/c"), DirChange::Migrate));
    assert!(matches!(data_dir_change("/a/b", "a/b"), DirChange::Migrate));
    assert!(matches!(data_dir_change("/a/b", "/a/../a/b"), DirChange::Migrate));
}

#[test]
fn config_dirs() {
    assert_eq!(config_dir_for("cb", Some("/x".to_string()), Some("/h".to_string())), "/x/cb");
    assert_eq!(config_dir_for("cb", Some(String::new()), Some("/h".to_string())), "/h/.config/cb");
    assert_eq!(config_dir_for("cb", None, Some("/h/".to_string())), "/h/.config/cb");
    assert_eq!(config_dir_for("cb", None, None), "./cb");
}

#[test]
fn store_dir_at_startup() {
    assert_eq!(choose_store_dir("/def", "", true), "/def");
    assert_eq!(choose_store_dir("/def", "/custom", true), "/custom");
    assert_eq!(choose_store_dir("/def", "/custom", false), "/def");
}

#[test]
fn tray_and_args() {
    assert_eq!(tray_action("open"), TrayAction::Open);
    assert_eq!(tray_action("clear"), TrayAction::Clear);
    assert_eq!(tray_action("quit"), TrayAction::Quit);
    assert_eq!(tray_action("other"), TrayAction::Nothing);
    let args = vec!["cleepboard".to_string(), "--toggle".to_string()];
    assert!(has_arg(&args, "--toggle"));
    assert!(!has_arg(&args, "--show"));
}

#[test]
fn text_and_image_signatures_differ() {
    assert_ne!(sig_text("1"), sig_image(&[1]));
    assert_ne!(sig_text(":af63dc4c8601ec8c"), sig_image(b"a"));
}

#[test]
fn copying_then_watching_does_not_record_again() {
    let mut st = state();
    let text = match st.copy_plan("t1") {
        CopyPlan::Text(t) => t,
        _ => panic!("expected text"),
    };
    st.note_self_set(sig_text(&text));
    let d = st.observe(&Some("t:older".to_string()), &ClipContent::Text(text));
    assert!(!matches!(d, WatchDecision::Record(_)));
}

#[test]
fn copy_plans_for_odd_items() {
    let odd = ClipItem {
        id: "f1".to_string(),
        kind: "file".to_string(),
        text: None,
        image_path: None,
        preview: String::new(),
        pinned: false,
        timestamp: 0,
    };
    let mut no_path = odd.clone();
    no_path.id = "i2".to_string();
    no_path.kind = "image".to_string();
    let mut no_text = odd.clone();
    no_text.id = "t2".to_string();
    no_text.kind = "text".to_string();
    let store = Store::load("/d".to_string(), None, Some(vec![odd, no_path, no_text]));
    let st = AppState::new(store, Backend::X11);
    assert!(matches!(st.copy_plan("f1"), CopyPlan::Unsupported));
    assert!(matches!(st.copy_plan("i2"), CopyPlan::Image(None)));
    match st.copy_plan("t2") {
        CopyPlan::Text(t) => assert_eq!(t, ""),
        _ => panic!("expected text"),
    }
}

#[test]
fn same_size_image_with_other_content_is_recorded() {
    let st = state();
    let last = content_signature(&ClipContent::Image(vec![1, 2, 3]));
    assert!(matches!(st.observe(&last, &ClipContent::Image(vec![3, 2, 1])), WatchDecision::Record(_)));
    assert!(matches!(st.observe(&last, &ClipContent::Image(vec![1, 2, 3])), WatchDecision::Ignore));
}

#[test]
fn start_visibility() {
    let a = |v: &[&str]| v.iter().map(|s| s.to_string()).collect::<Vec<String>>();
    assert!(starts_hidden(&a(&["cleepboard"])));
    assert!(!starts_hidden(&a(&["cleepboard", "--show"])));
    assert!(!starts_hidden(&a(&["cleepboard", "--toggle"])));
}
