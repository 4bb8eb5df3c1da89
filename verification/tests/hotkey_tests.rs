use cleepboard::hotkey::{
    format_gvariant_list, gsettings_value, is_registered, missing_gsettings, next_call,
    parse_gvariant_list, plan_outcome, read_list_args, register, unregister,
};

const KB: &str = "/org/gnome/settings-daemon/plugins/media-keys/custom-keybindings/cleepboard/";

fn s(v: &[&str]) -> Vec<String> {
    v.iter().map(|x| x.to_string()).collect()
}

#[test]
fn parse_empty_lists() {
    assert!(parse_gvariant_list("@as []").is_empty());
    assert!(parse_gvariant_list("[]").is_empty());
    assert!(parse_gvariant_list("").is_empty());
    assert!(parse_gvariant_list("no brackets").is_empty());
    assert!(parse_gvariant_list("]['a'").is_empty());
}

#[test]
fn parse_entries() {
    assert_eq!(parse_gvariant_list("['a', 'b']"), s(&["a", "b"]));
    assert_eq!(parse_gvariant_list("  [ 'x' ,  , ' y ' ]\n"), s(&["x", "y"]));
    assert_eq!(parse_gvariant_list("['/org/x/']"), s(&["/org/x/"]));
}

#[test]
fn format_lists() {
    assert_eq!(format_gvariant_list(&[]), "[]");
    assert_eq!(format_gvariant_list(&s(&["a"])), "['a']");
    assert_eq!(format_gvariant_list(&s(&["a", "b"])), "['a', 'b']");
}

#[test]
fn format_then_parse_roundtrip() {
    let paths = s(&["/org/a/", "/org/b/", KB]);
    assert_eq!(parse_gvariant_list(&format_gvariant_list(&paths)), paths);
}

#[test]
fn register_adds_our_path_once() {
    let plan = register("/usr/bin/cleepboard", "<Ctrl><Shift>v", Some("['/org/other/']".to_string()));
    assert_eq!(plan.calls.len(), 4);
    let expected_list = format!("['/org/other/', '{}']", KB);
    assert_eq!(
        plan.calls[0].args,
        s(&["set", "org.gnome.settings-daemon.plugins.media-keys", "custom-keybindings", &expected_list])
    );
    assert_eq!(plan.calls[0].error, "failed to set custom-keybindings list");
    let rel = format!("org.gnome.settings-daemon.plugins.media-keys.custom-keybinding:{}", KB);
    assert_eq!(plan.calls[1].args, s(&["set", &rel, "name", "Cleepboard Toggle"]));
    assert_eq!(plan.calls[1].error, "failed to set name");
    assert_eq!(plan.calls[2].args, s(&["set", &rel, "command", "/usr/bin/cleepboard --toggle"]));
    assert_eq!(plan.calls[2].error, "failed to set command");
    assert_eq!(plan.calls[3].args, s(&["set", &rel, "binding", "<Ctrl><Shift>v"]));
    assert_eq!(plan.calls[3].error, "failed to set binding");
    assert_eq!(plan.message, "Registered <Ctrl><Shift>v -> /usr/bin/cleepboard --toggle");

    // registering again does not add a second copy
    let again = register("/usr/bin/cleepboard", "<Ctrl><Shift>v", Some(expected_list.clone()));
    assert_eq!(again.calls[0].args[3], expected_list);
}

#[test]
fn register_with_unreadable_list() {
    let plan = register("/bin/c", "x", None);
    assert_eq!(plan.calls[0].args[3], format!("['{}']", KB));
}

#[test]
fn unregister_removes_our_path() {
    let current = format!("['/org/a/', '{}', '/org/b/']", KB);
    let plan = unregister(Some(current));
    assert_eq!(plan.calls.len(), 1);
    assert_eq!(plan.calls[0].args[3], "['/org/a/', '/org/b/']");
    assert_eq!(plan.calls[0].error, "failed to update list");
    assert_eq!(plan.message, "Unregistered");
    let only = unregister(Some(format!("['{}']", KB)));
    assert_eq!(only.calls[0].args[3], "[]");
}

#[test]
fn registered_status() {
    assert!(is_registered(Some(format!("['/org/a/', '{}']", KB))));
    assert!(!is_registered(Some("['/org/a/']".to_string())));
    assert!(!is_registered(None));
    let plan = register("/bin/c", "x", Some("@as []".to_string()));
    assert!(is_registered(Some(plan.calls[0].args[3].clone())));
    let plan = unregister(Some(plan.calls[0].args[3].clone()));
    assert!(!is_registered(Some(plan.calls[0].args[3].clone())));
}

#[test]
fn outcome_of_a_plan() {
    let plan = register("/bin/c", "x", None);
    assert_eq!(plan_outcome(&plan, &vec![true, true, true, true]), Ok(plan.message.clone()));
    assert_eq!(plan_outcome(&plan, &vec![true, false]), Err("failed to set name".to_string()));
    assert_eq!(plan_outcome(&plan, &vec![false]), Err("failed to set custom-keybindings list".to_string()));
}

#[test]
fn next_call_stops_at_the_first_failure() {
    let plan = register("/bin/c", "x", None);
    let n = plan.calls.len();
    assert_eq!(n, 4);
    assert_eq!(next_call(&plan, &vec![]), Some(0));
    assert_eq!(next_call(&plan, &vec![true]), Some(1));
    assert_eq!(next_call(&plan, &vec![true, true, true]), Some(3));
    assert_eq!(next_call(&plan, &vec![true, true, true, true]), None);
    assert_eq!(next_call(&plan, &vec![true, false]), None);
    assert_eq!(next_call(&plan, &vec![false]), None);
}

#[test]
fn gsettings_helpers() {
    assert_eq!(gsettings_value("  ['a']\n"), "['a']");
    assert_eq!(read_list_args(), s(&["get", "org.gnome.settings-daemon.plugins.media-keys", "custom-keybindings"]));
    assert_eq!(missing_gsettings(true), "gsettings not found (not a GNOME session)");
    assert_eq!(missing_gsettings(false), "gsettings not found");
}
