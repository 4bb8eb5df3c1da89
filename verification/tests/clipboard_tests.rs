use cleepboard::clipboard::{
    auto_paste, detect_backend, image_command, list_targets_command, paste_tool_available,
    pipe_succeeded, read, wants_image, set_image, set_text, text_command, which_command, Backend, ClipContent,
    Command, PasteTools,
};

fn parts(c: &Command) -> (String, Vec<String>) {
    (c.program.clone(), c.args.clone())
}

fn s(v: &[&str]) -> Vec<String> {
    v.iter().map(|x| x.to_string()).collect()
}

#[test]
fn backend_from_session() {
    assert_eq!(detect_backend(Some("x11".to_string()), true), Backend::X11);
    assert_eq!(detect_backend(Some("wayland".to_string()), false), Backend::Wayland);
    assert_eq!(detect_backend(Some("tty".to_string()), true), Backend::Wayland);
    assert_eq!(detect_backend(None, true), Backend::Wayland);
    assert_eq!(detect_backend(None, false), Backend::X11);
}

#[test]
fn wants_image_lines() {
    assert!(wants_image("text/plain\nimage/png\n"));
    assert!(wants_image("  image/png\r\n"));
    assert!(!wants_image("image/pngx\ntext/plain"));
    assert!(!wants_image(""));
}

#[test]
fn read_prefers_image() {
    match read(Some("image/png\ntext/plain".to_string()), Some(vec![1, 2]), Some("t".to_string())) {
        ClipContent::Image(b) => assert_eq!(b, vec![1, 2]),
        other => panic!("unexpected {:?}", other),
    }
}

#[test]
fn read_falls_back_to_text() {
    match read(Some("image/png".to_string()), Some(vec![]), Some("hi".to_string())) {
        ClipContent::Text(t) => assert_eq!(t, "hi"),
        other => panic!("unexpected {:?}", other),
    }
    match read(Some("text/plain".to_string()), Some(vec![1]), Some("hi".to_string())) {
        ClipContent::Text(t) => assert_eq!(t, "hi"),
        other => panic!("unexpected {:?}", other),
    }
    assert!(matches!(read(None, None, Some(String::new())), ClipContent::Empty));
    assert!(matches!(read(None, None, None), ClipContent::Empty));
}

#[test]
fn read_commands() {
    assert_eq!(parts(&list_targets_command(Backend::Wayland)), ("wl-paste".to_string(), s(&["--list-types"])));
    assert_eq!(
        parts(&list_targets_command(Backend::X11)),
        ("xclip".to_string(), s(&["-selection", "clipboard", "-o", "-t", "TARGETS"]))
    );
    assert_eq!(
        parts(&image_command(Backend::Wayland)),
        ("wl-paste".to_string(), s(&["--no-newline", "-t", "image/png"]))
    );
    assert_eq!(
        parts(&image_command(Backend::X11)),
        ("xclip".to_string(), s(&["-selection", "clipboard", "-o", "-t", "image/png"]))
    );
    assert_eq!(
        parts(&text_command(Backend::Wayland)),
        ("wl-paste".to_string(), s(&["--no-newline", "-t", "text/plain"]))
    );
    assert_eq!(parts(&text_command(Backend::X11)), ("xclip".to_string(), s(&["-selection", "clipboard", "-o"])));
}

#[test]
fn write_requests() {
    let r = set_text(Backend::Wayland, "héllo");
    assert_eq!(parts(&r.command), ("wl-copy".to_string(), vec![]));
    assert_eq!(r.data, "héllo".as_bytes().to_vec());
    let r = set_text(Backend::X11, "x");
    assert_eq!(parts(&r.command), ("xclip".to_string(), s(&["-selection", "clipboard"])));
    let r = set_image(Backend::Wayland, &[9, 8]);
    assert_eq!(parts(&r.command), ("wl-copy".to_string(), s(&["-t", "image/png"])));
    assert_eq!(r.data, vec![9, 8]);
    let r = set_image(Backend::X11, &[1]);
    assert_eq!(parts(&r.command), ("xclip".to_string(), s(&["-selection", "clipboard", "-t", "image/png"])));
}

#[test]
fn pipe_outcomes() {
    assert!(pipe_succeeded("xclip", true, true, true));
    assert!(!pipe_succeeded("xclip", true, true, false));
    assert!(pipe_succeeded("wl-copy", true, true, false));
    assert!(!pipe_succeeded("wl-copy", true, false, true));
    assert!(!pipe_succeeded("wl-copy", false, true, true));
}

#[test]
fn which_probe() {
    assert_eq!(parts(&which_command("wtype")), ("sh".to_string(), s(&["-c", "command -v wtype"])));
}

#[test]
fn paste_commands() {
    let all = PasteTools { wtype: true, ydotool: true, xdotool: true };
    let none = PasteTools { wtype: false, ydotool: false, xdotool: false };
    let ydo = PasteTools { wtype: false, ydotool: true, xdotool: false };
    assert_eq!(
        parts(&auto_paste(Backend::Wayland, &all).unwrap()),
        ("wtype".to_string(), s(&["-M", "ctrl", "v", "-m", "ctrl"]))
    );
    assert_eq!(
        parts(&auto_paste(Backend::Wayland, &ydo).unwrap()),
        ("ydotool".to_string(), s(&["key", "29:1", "47:1", "47:0", "29:0"]))
    );
    assert!(auto_paste(Backend::Wayland, &none).is_none());
    assert_eq!(
        parts(&auto_paste(Backend::X11, &all).unwrap()),
        ("xdotool".to_string(), s(&["key", "--clearmodifiers", "ctrl+v"]))
    );
    assert!(auto_paste(Backend::X11, &ydo).is_none());
    assert!(paste_tool_available(Backend::Wayland, &ydo));
    assert!(!paste_tool_available(Backend::X11, &ydo));
    assert!(!paste_tool_available(Backend::Wayland, &none));
}
