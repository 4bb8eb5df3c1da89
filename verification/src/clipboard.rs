//! Clipboard access through the command-line tools of the session: `wl-paste`
//! and `wl-copy` on Wayland, `xclip` on X11; auto-paste through `wtype`,
//! `ydotool` or `xdotool`. This module decides which commands to run and what
//! their output means; running them is left to the caller.
use vstd::prelude::*;
use crate::text::{
    chars_of, lemma_split_prepend, owned, push_str, split_chars, split_spec, trim_chars, trim_ws,
    same_text, seq_eq,
};
use crate::hotkey::strs;
use crate::store::opt_chars;

verus! {

/// The display server of the session.
#[derive(Clone, Copy, PartialEq, Eq, Structural, Debug)]
pub enum Backend {
    Wayland,
    X11,
}

/// What the clipboard holds.
#[derive(Debug)]
pub enum ClipContent {
    Text(String),
    Image(Vec<u8>),
    Empty,
}

/// A program to run, with its arguments.
pub struct Command {
    pub program: String,
    pub args: Vec<String>,
}

/// A program to run with `data` on its standard input.
pub struct PipeRequest {
    pub command: Command,
    pub data: Vec<u8>,
}

/// The session's backend from `XDG_SESSION_TYPE` (`None` when unset) and
/// whether `WAYLAND_DISPLAY` is set.
pub open spec fn backend_spec(session_type: Option<Seq<char>>, wayland_display: bool) -> Backend {
    if session_type == Some("x11"@) {
        Backend::X11
    } else if session_type == Some("wayland"@) {
        Backend::Wayland
    } else if wayland_display {
        Backend::Wayland
    } else {
        Backend::X11
    }
}

/// The backend: `x11` or `wayland` as the session type says, else Wayland when
/// a Wayland display is set, else X11.
pub fn detect_backend(session_type: Option<String>, wayland_display: bool) -> (r: Backend)
    ensures
        r == backend_spec(opt_chars(session_type), wayland_display),
{
    match session_type {
        Some(s) => {
            if same_text(s.as_str(), "x11") {
                return Backend::X11;
            }
            if same_text(s.as_str(), "wayland") {
                return Backend::Wayland;
            }
        },
        None => {},
    }
    if wayland_display {
        Backend::Wayland
    } else {
        Backend::X11
    }
}

/// Some line of a target listing is `image/png`, whitespace aside.
pub open spec fn lists_png(listing: Seq<char>) -> bool {
    exists|i: int|
        0 <= i < split_spec(listing, '\n').len() && trim_ws(#[trigger] split_spec(listing, '\n')[i])
            == "image/png"@
}

/// Whether a listing of clipboard targets, one per line, offers `image/png`.
pub fn wants_image(listing: &str) -> (r: bool)
    ensures
        r == lists_png(listing@),
{
    let cs = chars_of(listing);
    let lines = split_chars(&cs, '\n');
    let png = chars_of("image/png");
    let n = lines.len();
    for i in 0..n
        invariant
            n == lines.len() == split_spec(listing@, '\n').len(),
            cs@ == listing@,
            png@ == "image/png"@,
            forall|k: int| 0 <= k < n ==> #[trigger] lines@[k]@ == split_spec(listing@, '\n')[k],
            forall|k: int|
                0 <= k < i ==> trim_ws(#[trigger] split_spec(listing@, '\n')[k]) != "image/png"@,
    {
        let t = trim_chars(&lines[i], false);
        if seq_eq(&t, &png) {
            return true;
        }
    }
    false
}

/// A listing offers an image when any one of its lines, wherever it stands,
/// is `image/png` up to surrounding white space; reading the clipboard then
/// gives the image, when there are image bytes.
pub proof fn law_png_line_anywhere(listing: Seq<char>, k: int, image: Seq<u8>, text: Option<Seq<char>>)
    requires
        0 <= k < split_spec(listing, '\n').len(),
        trim_ws(split_spec(listing, '\n')[k]) == "image/png"@,
        image.len() > 0,
    ensures
        lists_png(listing),
        read_spec(Some(listing), Some(image), text) == ClipView::Image(image),
{
}

/// Lines put in front of a listing do not hide an `image/png` line in it.
pub proof fn law_png_line_after_others(line: Seq<char>, listing: Seq<char>)
    requires
        forall|i: int| 0 <= i < line.len() ==> #[trigger] line[i] != '\n',
        lists_png(listing),
    ensures
        lists_png(line.push('\n') + listing),
{
    let k = choose|i: int|
        0 <= i < split_spec(listing, '\n').len() && trim_ws(#[trigger] split_spec(listing, '\n')[i])
            == "image/png"@;
    lemma_split_prepend(line, listing, '\n');
    let all = split_spec(line.push('\n') + listing, '\n');
    assert(all[k + 1] == split_spec(listing, '\n')[k]);
}

/// What reading the clipboard gives, from the target listing (`None` when it
/// could not be read), the PNG image (`None` when not read or failed) and the
/// plain text (`None` when not read or failed): the image when the listing
/// offers `image/png` and the image is not empty, else the text when it is not
/// empty, else nothing.
pub open spec fn read_spec(
    listing: Option<Seq<char>>,
    image: Option<Seq<u8>>,
    text: Option<Seq<char>>,
) -> ClipView {
    if listing is Some && lists_png(listing->0) && image is Some && image->0.len() > 0 {
        ClipView::Image(image->0)
    } else if text is Some && text->0.len() > 0 {
        ClipView::Text(text->0)
    } else {
        ClipView::Empty
    }
}

/// What the clipboard holds, as sequences.
pub ghost enum ClipView {
    Text(Seq<char>),
    Image(Seq<u8>),
    Empty,
}

impl ClipContent {
    pub open spec fn view(&self) -> ClipView {
        match self {
            ClipContent::Text(t) => ClipView::Text(t@),
            ClipContent::Image(b) => ClipView::Image(b@),
            ClipContent::Empty => ClipView::Empty,
        }
    }
}

pub open spec fn opt_bytes(o: Option<Vec<u8>>) -> Option<Seq<u8>> {
    match o {
        Some(b) => Some(b@),
        None => None,
    }
}

/// Reads the clipboard from the outputs of the commands that
/// `list_targets_command`, `image_command` and `text_command` give. The image is
/// only looked at when `wants_image` holds of the listing, and the text only
/// when no image is taken.
pub fn read(listing: Option<String>, image: Option<Vec<u8>>, text: Option<String>) -> (r: ClipContent)
    ensures
        r.view() == read_spec(opt_chars(listing), opt_bytes(image), opt_chars(text)),
{
    let png = match &listing {
        Some(l) => wants_image(l.as_str()),
        None => false,
    };
    if png {
        match image {
            Some(b) => {
                if b.len() > 0 {
                    return ClipContent::Image(b);
                }
            },
            None => {},
        }
    }
    match text {
        Some(t) => {
            if !t.as_str().is_empty() {
                ClipContent::Text(t)
            } else {
                ClipContent::Empty
            }
        },
        None => ClipContent::Empty,
    }
}

fn strings(items: &[&str]) -> (r: Vec<String>)
    ensures
        r@.len() == items@.len(),
        forall|k: int| 0 <= k < r@.len() ==> #[trigger] r@[k]@ == items@[k]@,
{
    let mut v: Vec<String> = Vec::new();
    let n = items.len();
    for i in 0..n
        invariant
            n == items@.len(),
            v@.len() == i,
            forall|k: int| 0 <= k < i ==> #[trigger] v@[k]@ == items@[k]@,
    {
        v.push(owned(items[i]));
    }
    v
}

fn command(program: &str, args: &[&str]) -> (r: Command)
    ensures
        r.program@ == program@,
        r.args@.len() == args@.len(),
        forall|k: int| 0 <= k < args@.len() ==> #[trigger] r.args@[k]@ == args@[k]@,
{
    Command { program: owned(program), args: strings(args) }
}

/// The program and arguments of a command, as sequences.
pub open spec fn command_is(c: Command, program: Seq<char>, args: Seq<Seq<char>>) -> bool {
    c.program@ == program && strs(c.args@) == args
}

/// The command that lists the clipboard's targets.
pub fn list_targets_command(backend: Backend) -> (r: Command)
    ensures
        backend == Backend::Wayland ==> command_is(r, "wl-paste"@, seq!["--list-types"@]),
        backend == Backend::X11 ==> command_is(
            r,
            "xclip"@,
            seq!["-selection"@, "clipboard"@, "-o"@, "-t"@, "TARGETS"@],
        ),
{
    let r = match backend {
        Backend::Wayland => command("wl-paste", &["--list-types"]),
        Backend::X11 => command("xclip", &["-selection", "clipboard", "-o", "-t", "TARGETS"]),
    };
    proof {
        if backend == Backend::Wayland {
            assert(strs(r.args@) =~= seq!["--list-types"@]);
        } else {
            assert(strs(r.args@) =~= seq!["-selection"@, "clipboard"@, "-o"@, "-t"@, "TARGETS"@]);
        }
    }
    r
}

/// The command that reads the clipboard as a PNG image.
pub fn image_command(backend: Backend) -> (r: Command)
    ensures
        backend == Backend::Wayland ==> command_is(
            r,
            "wl-paste"@,
            seq!["--no-newline"@, "-t"@, "image/png"@],
        ),
        backend == Backend::X11 ==> command_is(
            r,
            "xclip"@,
            seq!["-selection"@, "clipboard"@, "-o"@, "-t"@, "image/png"@],
        ),
{
    let r = match backend {
        Backend::Wayland => command("wl-paste", &["--no-newline", "-t", "image/png"]),
        Backend::X11 => command("xclip", &["-selection", "clipboard", "-o", "-t", "image/png"]),
    };
    proof {
        if backend == Backend::Wayland {
            assert(strs(r.args@) =~= seq!["--no-newline"@, "-t"@, "image/png"@]);
        } else {
            assert(strs(r.args@) =~= seq![
                "-selection"@,
                "clipboard"@,
                "-o"@,
                "-t"@,
                "image/png"@,
            ]);
        }
    }
    r
}

/// The command that reads the clipboard as plain text.
pub fn text_command(backend: Backend) -> (r: Command)
    ensures
        backend == Backend::Wayland ==> command_is(
            r,
            "wl-paste"@,
            seq!["--no-newline"@, "-t"@, "text/plain"@],
        ),
        backend == Backend::X11 ==> command_is(
            r,
            "xclip"@,
            seq!["-selection"@, "clipboard"@, "-o"@],
        ),
{
    let r = match backend {
        Backend::Wayland => command("wl-paste", &["--no-newline", "-t", "text/plain"]),
        Backend::X11 => command("xclip", &["-selection", "clipboard", "-o"]),
    };
    proof {
        if backend == Backend::Wayland {
            assert(strs(r.args@) =~= seq!["--no-newline"@, "-t"@, "text/plain"@]);
        } else {
            assert(strs(r.args@) =~= seq!["-selection"@, "clipboard"@, "-o"@]);
        }
    }
    r
}

/// What puts `text` on the clipboard: its UTF-8 bytes piped to `wl-copy`, or to
/// `xclip -selection clipboard`.
pub fn set_text(backend: Backend, text: &str) -> (r: PipeRequest)
    ensures
        r.data@ == vstd::utf8::encode_utf8(text@),
        backend == Backend::Wayland ==> command_is(r.command, "wl-copy"@, Seq::empty()),
        backend == Backend::X11 ==> command_is(
            r.command,
            "xclip"@,
            seq!["-selection"@, "clipboard"@],
        ),
{
    let data = vstd::slice::slice_to_vec(text.as_bytes());
    let c = match backend {
        Backend::Wayland => command("wl-copy", &[]),
        Backend::X11 => command("xclip", &["-selection", "clipboard"]),
    };
    proof {
        if backend == Backend::Wayland {
            assert(strs(c.args@) =~= Seq::<Seq<char>>::empty());
        } else {
            assert(strs(c.args@) =~= seq!["-selection"@, "clipboard"@]);
        }
    }
    PipeRequest { command: c, data }
}

/// What puts a PNG image on the clipboard: its bytes piped to
/// `wl-copy -t image/png`, or to `xclip -selection clipboard -t image/png`.
pub fn set_image(backend: Backend, bytes: &[u8]) -> (r: PipeRequest)
    ensures
        r.data@ == bytes@,
        backend == Backend::Wayland ==> command_is(
            r.command,
            "wl-copy"@,
            seq!["-t"@, "image/png"@],
        ),
        backend == Backend::X11 ==> command_is(
            r.command,
            "xclip"@,
            seq!["-selection"@, "clipboard"@, "-t"@, "image/png"@],
        ),
{
    let data = vstd::slice::slice_to_vec(bytes);
    let c = match backend {
        Backend::Wayland => command("wl-copy", &["-t", "image/png"]),
        Backend::X11 => command("xclip", &["-selection", "clipboard", "-t", "image/png"]),
    };
    proof {
        if backend == Backend::Wayland {
            assert(strs(c.args@) =~= seq!["-t"@, "image/png"@]);
        } else {
            assert(strs(c.args@) =~= seq!["-selection"@, "clipboard"@, "-t"@, "image/png"@]);
        }
    }
    PipeRequest { command: c, data }
}

/// Whether piping to `program` succeeded: it started, took all the data, and
/// exited successfully; `wl-copy` counts as done once it took the data, since
/// it stays around to serve the clipboard.
pub fn pipe_succeeded(program: &str, started: bool, written: bool, exited_ok: bool) -> (r: bool)
    ensures
        r == (started && written && (exited_ok || program@ == "wl-copy"@)),
{
    started && written && (exited_ok || same_text(program, "wl-copy"))
}

/// The command that checks whether `bin` is installed: `sh -c "command -v <bin>"`.
pub fn which_command(bin: &str) -> (r: Command)
    ensures
        command_is(r, "sh"@, seq!["-c"@, "command -v "@ + bin@]),
{
    let mut probe = owned("command -v ");
    push_str(&mut probe, bin);
    let mut args: Vec<String> = Vec::new();
    args.push(owned("-c"));
    args.push(probe);
    assert(strs(args@) =~= seq!["-c"@, "command -v "@ + bin@]);
    Command { program: owned("sh"), args }
}

/// Which keystroke tools are installed.
pub struct PasteTools {
    pub wtype: bool,
    pub ydotool: bool,
    pub xdotool: bool,
}

/// The command that simulates Ctrl+V: on Wayland `wtype`, else `ydotool`; on
/// X11 `xdotool`; none when the tool is missing.
pub fn auto_paste(backend: Backend, tools: &PasteTools) -> (r: Option<Command>)
    ensures
        backend == Backend::Wayland && tools.wtype ==> (r matches Some(c) && command_is(
            c,
            "wtype"@,
            seq!["-M"@, "ctrl"@, "v"@, "-m"@, "ctrl"@],
        )),
        backend == Backend::Wayland && !tools.wtype && tools.ydotool ==> (r matches Some(c)
            && command_is(c, "ydotool"@, seq!["key"@, "29:1"@, "47:1"@, "47:0"@, "29:0"@])),
        backend == Backend::Wayland && !tools.wtype && !tools.ydotool ==> r is None,
        backend == Backend::X11 && tools.xdotool ==> (r matches Some(c) && command_is(
            c,
            "xdotool"@,
            seq!["key"@, "--clearmodifiers"@, "ctrl+v"@],
        )),
        backend == Backend::X11 && !tools.xdotool ==> r is None,
{
    match backend {
        Backend::Wayland => {
            if tools.wtype {
                let c = command("wtype", &["-M", "ctrl", "v", "-m", "ctrl"]);
                assert(strs(c.args@) =~= seq!["-M"@, "ctrl"@, "v"@, "-m"@, "ctrl"@]);
                return Some(c);
            }
            if tools.ydotool {
                let c = command("ydotool", &["key", "29:1", "47:1", "47:0", "29:0"]);
                assert(strs(c.args@) =~= seq!["key"@, "29:1"@, "47:1"@, "47:0"@, "29:0"@]);
                return Some(c);
            }
            None
        },
        Backend::X11 => {
            if tools.xdotool {
                let c = command("xdotool", &["key", "--clearmodifiers", "ctrl+v"]);
                assert(strs(c.args@) =~= seq!["key"@, "--clearmodifiers"@, "ctrl+v"@]);
                return Some(c);
            }
            None
        },
    }
}

/// Whether a keystroke tool for auto-paste is installed.
pub fn paste_tool_available(backend: Backend, tools: &PasteTools) -> (r: bool)
    ensures
        r == match backend {
            Backend::Wayland => tools.wtype || tools.ydotool,
            Backend::X11 => tools.xdotool,
        },
{
    match backend {
        Backend::Wayland => tools.wtype || tools.ydotool,
        Backend::X11 => tools.xdotool,
    }
}

} // verus!
