//! The running application's decisions: what the clipboard watcher records,
//! what copying an item puts on the clipboard, where the data lives, and how
//! an image is handed to the user interface.
use vstd::prelude::*;
use crate::text::{
    owned, push_char, push_str, same_text, trim_str, trim_ws,
};
use crate::path::{join, join_spec, same_path, same_path_spec};
use crate::clipboard::{Backend, ClipContent, ClipView};
use crate::store::{first_match, has_id, image_sig, opt_chars, simple_hash, ClipItem, Settings, Store};

verus! {

// ---------------------------------------------------------------------------
// Clipboard signatures and the watcher
// ---------------------------------------------------------------------------

/// The signature of a text on the clipboard.
pub open spec fn text_sig(t: Seq<char>) -> Seq<char> {
    seq!['t', ':'] + t
}

/// The signature of an image on the clipboard: the FNV-1a hash of its bytes.
pub open spec fn image_content_sig(bytes: Seq<u8>) -> Seq<char> {
    seq!['i', ':'] + image_sig(bytes)
}

/// `t:` followed by the text.
pub fn sig_text(t: &str) -> (r: String)
    ensures
        r@ == text_sig(t@),
{
    let mut r = String::new();
    push_char(&mut r, 't');
    push_char(&mut r, ':');
    push_str(&mut r, t);
    assert(r@ =~= text_sig(t@));
    r
}

/// `i:` followed by the hexadecimal FNV-1a hash of the image's bytes.
pub fn sig_image(bytes: &[u8]) -> (r: String)
    ensures
        r@ == image_content_sig(bytes@),
{
    let mut r = String::new();
    push_char(&mut r, 'i');
    push_char(&mut r, ':');
    let h = simple_hash(bytes);
    push_str(&mut r, h.as_str());
    assert(r@ =~= image_content_sig(bytes@));
    r
}

/// The signature of what the clipboard holds; none when it is empty.
pub open spec fn content_sig(c: ClipView) -> Option<Seq<char>> {
    match c {
        ClipView::Text(t) => Some(text_sig(t)),
        ClipView::Image(b) => Some(image_content_sig(b)),
        ClipView::Empty => None,
    }
}

/// The signature of what the clipboard holds.
pub fn content_signature(c: &ClipContent) -> (r: Option<String>)
    ensures
        match r {
            Some(s) => content_sig(c.view()) == Some(s@),
            None => content_sig(c.view()) is None,
        },
{
    match c {
        ClipContent::Text(t) => Some(sig_text(t.as_str())),
        ClipContent::Image(b) => Some(sig_image(b.as_slice())),
        ClipContent::Empty => None,
    }
}

/// What the watcher does with what it just read from the clipboard.
pub enum WatchDecision {
    /// Nothing: the clipboard is empty or unchanged since the last poll.
    Ignore,
    /// Remember this signature as the last seen, but record nothing: the value
    /// was put there by this application.
    Remember(String),
    /// Remember this signature and record the content in the history.
    Record(String),
}

/// The watcher's decision, over signatures.
pub open spec fn watch_spec(
    last: Option<Seq<char>>,
    own: Option<Seq<char>>,
    c: ClipView,
) -> WatchView {
    match content_sig(c) {
        None => WatchView::Ignore,
        Some(s) => if last == Some(s) {
            WatchView::Ignore
        } else if own == Some(s) {
            WatchView::Remember(s)
        } else {
            WatchView::Record(s)
        },
    }
}

/// A watcher decision, over signatures.
pub ghost enum WatchView {
    Ignore,
    Remember(Seq<char>),
    Record(Seq<char>),
}

impl WatchDecision {
    pub open spec fn view(&self) -> WatchView {
        match self {
            WatchDecision::Ignore => WatchView::Ignore,
            WatchDecision::Remember(s) => WatchView::Remember(s@),
            WatchDecision::Record(s) => WatchView::Record(s@),
        }
    }
}

fn opt_same(a: &Option<String>, s: &String) -> (r: bool)
    ensures
        r == (opt_chars(*a) == Some(s@)),
{
    match a {
        Some(x) => same_text(x.as_str(), s.as_str()),
        None => false,
    }
}

// ---------------------------------------------------------------------------
// The application state
// ---------------------------------------------------------------------------

/// The state that the running application keeps: the store, the session's
/// backend, and the signature of the value it last put on the clipboard itself.
pub struct AppState {
    pub store: Store,
    pub backend: Backend,
    pub self_set: Option<String>,
}

/// What copying an item puts on the clipboard.
pub enum CopyPlan {
    /// There is no item with that id.
    Missing,
    /// A text item: this text (empty when the item has none).
    Text(String),
    /// An image item: the file to read the image from, if it has one.
    Image(Option<String>),
    /// An item of another kind: nothing is copied.
    Unsupported,
}

/// What deciding on a copy finds, over sequences.
pub ghost enum CopyView {
    Missing,
    Text(Seq<char>),
    Image(Option<Seq<char>>),
    Unsupported,
}

impl CopyPlan {
    pub open spec fn view(&self) -> CopyView {
        match self {
            CopyPlan::Missing => CopyView::Missing,
            CopyPlan::Text(t) => CopyView::Text(t@),
            CopyPlan::Image(p) => CopyView::Image(opt_chars(*p)),
            CopyPlan::Unsupported => CopyView::Unsupported,
        }
    }
}

/// What copying the item with this id finds in the history.
pub open spec fn copy_spec(s: Seq<crate::store::ClipItemView>, id: Seq<char>) -> CopyView {
    let p = first_match(s, has_id(id));
    if p >= s.len() {
        CopyView::Missing
    } else if s[p].kind == "text"@ {
        CopyView::Text(
            match s[p].text {
                Some(t) => t,
                None => Seq::empty(),
            },
        )
    } else if s[p].kind == "image"@ {
        CopyView::Image(s[p].image_path)
    } else {
        CopyView::Unsupported
    }
}

impl AppState {
    /// A fresh state: nothing put on the clipboard yet.
    pub fn new(store: Store, backend: Backend) -> (r: AppState)
        ensures
            r.store == store,
            r.backend == backend,
            r.self_set is None,
    {
        AppState { store, backend, self_set: None }
    }

    /// What the watcher does with the content it read, given the signature it
    /// saw last: an empty clipboard and an unchanged one are ignored; a value
    /// this application put there itself is only remembered; anything else is
    /// recorded.
    pub fn observe(&self, last_sig: &Option<String>, content: &ClipContent) -> (r: WatchDecision)
        ensures
            r.view() == watch_spec(opt_chars(*last_sig), opt_chars(self.self_set), content.view()),
    {
        let sig = match content_signature(content) {
            Some(s) => s,
            None => return WatchDecision::Ignore,
        };
        if opt_same(last_sig, &sig) {
            return WatchDecision::Ignore;
        }
        if opt_same(&self.self_set, &sig) {
            return WatchDecision::Remember(sig);
        }
        WatchDecision::Record(sig)
    }

    /// Notes that this application put a value with signature `sig` on the clipboard.
    pub fn note_self_set(&mut self, sig: String)
        ensures
            final(self).store == old(self).store,
            final(self).backend == old(self).backend,
            opt_chars(final(self).self_set) == Some(sig@),
    {
        self.self_set = Some(sig);
    }

    /// What copying the item with this id puts on the clipboard.
    pub fn copy_plan(&self, id: &str) -> (r: CopyPlan)
        ensures
            r.view() == copy_spec(self.store.history(), id@),
    {
        let item: &ClipItem = match self.store.find(id) {
            Some(i) => i,
            None => return CopyPlan::Missing,
        };
        if same_text(item.kind.as_str(), "text") {
            match &item.text {
                Some(t) => CopyPlan::Text(t.clone()),
                None => CopyPlan::Text(String::new()),
            }
        } else if same_text(item.kind.as_str(), "image") {
            match &item.image_path {
                Some(p) => CopyPlan::Image(Some(p.clone())),
                None => CopyPlan::Image(None),
            }
        } else {
            CopyPlan::Unsupported
        }
    }
}

/// How long the watcher sleeps between polls: the setting, but at least 150 ms.
pub fn poll_interval(settings: &Settings) -> (r: u64)
    ensures
        r == if settings.poll_ms < 150 {
            150
        } else {
            settings.poll_ms
        },
{
    if settings.poll_ms < 150 {
        150
    } else {
        settings.poll_ms
    }
}

// ---------------------------------------------------------------------------
// Base64 and image data URLs
// ---------------------------------------------------------------------------

/// The base64 digit for a value below 64: `A-Z`, `a-z`, `0-9`, `+`, `/`.
pub open spec fn b64_digit(v: nat) -> char {
    if v < 26 {
        (65 + v) as char
    } else if v < 52 {
        (97 + (v - 26)) as char
    } else if v < 62 {
        (48 + (v - 52)) as char
    } else if v == 62 {
        '+'
    } else {
        '/'
    }
}

/// The byte at `i`, or zero past the end.
pub open spec fn byte_or_zero(s: Seq<u8>, i: int) -> nat {
    if i < s.len() {
        s[i] as nat
    } else {
        0
    }
}

/// The 24-bit value of the three bytes of group `g` (missing bytes are zero).
pub open spec fn group_value(s: Seq<u8>, g: int) -> nat {
    byte_or_zero(s, 3 * g) * 65536 + byte_or_zero(s, 3 * g + 1) * 256 + byte_or_zero(s, 3 * g + 2)
}

/// Character `k` of the base64 encoding of `s`: four characters of six bits
/// per three bytes, with `=` in place of the characters of missing bytes.
pub open spec fn b64_at(s: Seq<u8>, k: int) -> char {
    let g = k / 4;
    let n = group_value(s, g);
    if k % 4 == 0 {
        b64_digit(n / 262144)
    } else if k % 4 == 1 {
        b64_digit((n / 4096) % 64)
    } else if k % 4 == 2 {
        if 3 * g + 1 < s.len() {
            b64_digit((n / 64) % 64)
        } else {
            '='
        }
    } else {
        if 3 * g + 2 < s.len() {
            b64_digit(n % 64)
        } else {
            '='
        }
    }
}

/// The standard padded base64 encoding of `s`.
pub open spec fn base64_spec(s: Seq<u8>) -> Seq<char> {
    Seq::new(4 * ((s.len() + 2) / 3), |k: int| b64_at(s, k))
}

fn b64_char(v: u32) -> (c: char)
    requires
        v < 64,
    ensures
        c == b64_digit(v as nat),
{
    if v < 26 {
        ((65 + v) as u8) as char
    } else if v < 52 {
        ((97 + (v - 26)) as u8) as char
    } else if v < 62 {
        ((48 + (v - 52)) as u8) as char
    } else if v == 62 {
        '+'
    } else {
        '/'
    }
}

/// The standard padded base64 encoding of some bytes.
pub fn base64_encode(input: &[u8]) -> (r: String)
    ensures
        r@ == base64_spec(input@),
{
    let n = input.len();
    let groups: usize = n / 3 + if n % 3 == 0 {
        0
    } else {
        1
    };
    assert(groups == (n + 2) / 3);
    let mut out: Vec<char> = Vec::new();
    for g in 0..groups
        invariant
            n == input@.len(),
            groups == (n + 2) / 3,
            out@.len() == 4 * g,
            forall|k: int| 0 <= k < 4 * g ==> #[trigger] out@[k] == b64_at(input@, k),
    {
        assert(3 * g < n) by (nonlinear_arith)
            requires
                g < groups,
                groups == (n + 2) / 3,
        ;
        let i = 3 * g;
        let b0 = input[i] as u32;
        let b1: u32 = if i + 1 < n {
            input[i + 1] as u32
        } else {
            0
        };
        let b2: u32 = if i + 2 < n {
            input[i + 2] as u32
        } else {
            0
        };
        let v = b0 * 65536 + b1 * 256 + b2;
        assert(v == group_value(input@, g as int));
        let c0 = b64_char(v / 262144);
        let c1 = b64_char((v / 4096) % 64);
        let c2 = if i + 1 < n {
            b64_char((v / 64) % 64)
        } else {
            '='
        };
        let c3 = if i + 2 < n {
            b64_char(v % 64)
        } else {
            '='
        };
        let ghost before = out@;
        out.push(c0);
        out.push(c1);
        out.push(c2);
        out.push(c3);
        proof {
            assert forall|k: int| 0 <= k < 4 * (g + 1) implies #[trigger] out@[k] == b64_at(
                input@,
                k,
            ) by {
                if k >= 4 * g {
                    assert(k / 4 == g);
                    assert(k % 4 == k - 4 * g);
                }
            }
        }
    }
    let mut r = String::new();
    crate::text::push_chars(&mut r, &out);
    assert(r@ =~= base64_spec(input@));
    r
}

/// A base64 digit character: `A-Z`, `a-z`, `0-9`, `+` or `/`.
pub open spec fn is_b64_digit(c: char) -> bool {
    let u = c as u32;
    (65 <= u && u <= 90) || (97 <= u && u <= 122) || (48 <= u && u <= 57) || c == '+' || c == '/'
}

/// The value of a base64 digit character; `=` (and anything else) counts as zero.
pub open spec fn b64_value(c: char) -> nat {
    let u = c as u32;
    if 65 <= u && u <= 90 {
        (u - 65) as nat
    } else if 97 <= u && u <= 122 {
        (u - 71) as nat
    } else if 48 <= u && u <= 57 {
        (u + 4) as nat
    } else if c == '+' {
        62
    } else if c == '/' {
        63
    } else {
        0
    }
}

/// The 24-bit value of the four characters of group `g`.
pub open spec fn quad_value(e: Seq<char>, g: int) -> nat {
    b64_value(e[4 * g]) * 262144 + b64_value(e[4 * g + 1]) * 4096 + b64_value(e[4 * g + 2]) * 64
        + b64_value(e[4 * g + 3])
}

/// The number of `=` at the end of an encoding (at most two).
pub open spec fn pad_of(e: Seq<char>) -> nat {
    if e.len() >= 1 && e.last() == '=' {
        if e.len() >= 2 && e[e.len() - 2] == '=' {
            2
        } else {
            1
        }
    } else {
        0
    }
}

/// Standard base64 decoding: three bytes per group of four characters, less
/// one byte for each `=` at the end.
pub open spec fn base64_decode_spec(e: Seq<char>) -> Seq<u8> {
    Seq::new(
        (3 * (e.len() / 4) - pad_of(e)) as nat,
        |i: int|
            {
                let v = quad_value(e, i / 3);
                (if i % 3 == 0 {
                    v / 65536
                } else if i % 3 == 1 {
                    (v / 256) % 256
                } else {
                    v % 256
                }) as u8
            },
    )
}

pub proof fn lemma_b64_digit(v: nat)
    requires
        v < 64,
    ensures
        is_b64_digit(b64_digit(v)),
        b64_value(b64_digit(v)) == v,
        b64_digit(v) != '=',
{
    if v < 26 {
        assert(((65 + v) as char) as u32 == 65 + v);
    } else if v < 52 {
        assert(((97 + (v - 26)) as char) as u32 == 97 + (v - 26));
    } else if v < 62 {
        assert(((48 + (v - 52)) as char) as u32 == 48 + (v - 52));
    }
}

pub proof fn lemma_group(b0: nat, b1: nat, b2: nat)
    requires
        b0 < 256,
        b1 < 256,
        b2 < 256,
    ensures
        (b0 * 65536 + b1 * 256 + b2) / 262144 < 64,
        (b0 * 65536 + b1 * 256 + b2) / 262144 * 262144 + ((b0 * 65536 + b1 * 256 + b2) / 4096) % 64
            * 4096 + ((b0 * 65536 + b1 * 256 + b2) / 64) % 64 * 64 + (b0 * 65536 + b1 * 256 + b2)
            % 64 == b0 * 65536 + b1 * 256 + b2,
        (b0 * 65536 + b1 * 256 + b2) / 65536 == b0,
        ((b0 * 65536 + b1 * 256 + b2) / 256) % 256 == b1,
        (b0 * 65536 + b1 * 256 + b2) % 256 == b2,
        b1 == 0 && b2 == 0 ==> ((b0 * 65536 + b1 * 256 + b2) / 64) % 64 == 0,
        b2 == 0 ==> (b0 * 65536 + b1 * 256 + b2) % 64 == 0,
{
    let n = b0 * 65536 + b1 * 256 + b2;
    assert(n / 262144 < 64) by (nonlinear_arith)
        requires
            n == b0 * 65536 + b1 * 256 + b2,
            b0 < 256,
            b1 < 256,
            b2 < 256,
    ;
    assert(n / 262144 * 262144 + (n / 4096) % 64 * 4096 + (n / 64) % 64 * 64 + n % 64 == n)
        by (nonlinear_arith)
        requires
            n < 16777216,
    ;
    assert(n / 65536 == b0 && (n / 256) % 256 == b1 && n % 256 == b2) by (nonlinear_arith)
        requires
            n == b0 * 65536 + b1 * 256 + b2,
            b0 < 256,
            b1 < 256,
            b2 < 256,
    ;
    assert(b1 == 0 && b2 == 0 ==> (n / 64) % 64 == 0) by (nonlinear_arith)
        requires
            n == b0 * 65536 + b1 * 256 + b2,
    ;
    assert(b2 == 0 ==> n % 64 == 0) by (nonlinear_arith)
        requires
            n == b0 * 65536 + b1 * 256 + b2,
    ;
}

/// The encoding has four characters per three bytes (the last group padded),
/// its characters are base64 digits except for the padding, and exactly
/// `(3 - n % 3) % 3` characters at the end are `=`.
#[verifier::rlimit(50)]
pub proof fn law_base64_shape(s: Seq<u8>)
    ensures
        base64_spec(s).len() == 4 * ((s.len() + 2) / 3),
        forall|k: int|
            0 <= k < base64_spec(s).len() ==> (#[trigger] base64_spec(s)[k] == '=') == (k
                >= base64_spec(s).len() - (3 - s.len() % 3) % 3),
        forall|k: int|
            0 <= k < base64_spec(s).len() && base64_spec(s)[k] != '=' ==> is_b64_digit(
                #[trigger] base64_spec(s)[k],
            ),
{
    let e = base64_spec(s);
    let n = s.len();
    let big_g = (n + 2) / 3;
    assert forall|k: int| 0 <= k < e.len() implies (#[trigger] e[k] == '=') == (k >= e.len() - (3
        - n % 3) % 3) && (e[k] != '=' ==> is_b64_digit(e[k])) by {
        let g = k / 4;
        let v = group_value(s, g);
        assert(0 <= g < big_g);
        assert(3 * g < n);
        lemma_group(byte_or_zero(s, 3 * g), byte_or_zero(s, 3 * g + 1), byte_or_zero(s, 3 * g + 2));
        lemma_b64_digit(v / 262144);
        lemma_b64_digit((v / 4096) % 64);
        lemma_b64_digit((v / 64) % 64);
        lemma_b64_digit(v % 64);
        assert(e[k] == b64_at(s, k));
    }
}

/// Decoding the encoding of some bytes gives them back.
#[verifier::rlimit(50)]
pub proof fn law_base64_decodes(s: Seq<u8>)
    ensures
        base64_decode_spec(base64_spec(s)) == s,
{
    let e = base64_spec(s);
    let n = s.len();
    law_base64_shape(s);
    let big_g = (n + 2) / 3;
    assert(e.len() / 4 == big_g);
    if n > 0 {
        assert(e[e.len() - 1] == '=' <==> n % 3 != 0);
        assert(e[e.len() - 2] == '=' <==> n % 3 == 1);
    }
    assert(pad_of(e) == (3 - n % 3) % 3);
    assert(3 * big_g - pad_of(e) == n);
    let d = base64_decode_spec(e);
    assert forall|i: int| 0 <= i < n implies #[trigger] d[i] == s[i] by {
        let g = i / 3;
        let b0 = byte_or_zero(s, 3 * g);
        let b1 = byte_or_zero(s, 3 * g + 1);
        let b2 = byte_or_zero(s, 3 * g + 2);
        let v = group_value(s, g);
        lemma_group(b0, b1, b2);
        lemma_b64_digit(v / 262144);
        lemma_b64_digit((v / 4096) % 64);
        lemma_b64_digit((v / 64) % 64);
        lemma_b64_digit(v % 64);
        assert(g < big_g);
        assert(e[4 * g] == b64_at(s, 4 * g));
        assert(e[4 * g + 1] == b64_at(s, 4 * g + 1));
        assert(e[4 * g + 2] == b64_at(s, 4 * g + 2));
        assert(e[4 * g + 3] == b64_at(s, 4 * g + 3));
        assert((4 * g) / 4 == g && (4 * g + 1) / 4 == g && (4 * g + 2) / 4 == g && (4 * g + 3) / 4
            == g);
        assert(b64_value(e[4 * g + 2]) == (v / 64) % 64);
        assert(b64_value(e[4 * g + 3]) == v % 64);
        assert(quad_value(e, g) == v);
        if i % 3 == 1 {
            assert(b1 == s[i]);
        } else if i % 3 == 2 {
            assert(b2 == s[i]);
        } else {
            assert(b0 == s[i]);
        }
    }
    assert(d =~= s);
}

/// The data URL of a PNG image: `data:image/png;base64,` and the encoded bytes.
pub fn image_data_url(bytes: &[u8]) -> (r: String)
    ensures
        r@ == "data:image/png;base64,"@ + base64_spec(bytes@),
{
    let mut r = owned("data:image/png;base64,");
    let e = base64_encode(bytes);
    push_str(&mut r, e.as_str());
    r
}

// ---------------------------------------------------------------------------
// The data directory
// ---------------------------------------------------------------------------

/// What asking to move the data to another directory amounts to.
pub enum DirChange {
    /// The request is refused, with this message.
    Rejected(String),
    /// The directory is the current one: nothing to do.
    Unchanged,
    /// The data is to be migrated.
    Migrate,
}

/// A request to move the data from `current` to `requested`: a blank path is
/// refused, the same path (component by component) changes nothing, and any
/// other path is migrated to.
pub fn data_dir_change(current: &str, requested: &str) -> (r: DirChange)
    ensures
        trim_ws(requested@).len() == 0 ==> (r matches DirChange::Rejected(m) && m@
            == "Directory path cannot be empty"@),
        trim_ws(requested@).len() > 0 && same_path_spec(current@, requested@) ==> r is Unchanged,
        trim_ws(requested@).len() > 0 && !same_path_spec(current@, requested@) ==> r is Migrate,
{
    if trim_str(requested).len() == 0 {
        return DirChange::Rejected(owned("Directory path cannot be empty"));
    }
    if same_path(current, requested) {
        DirChange::Unchanged
    } else {
        DirChange::Migrate
    }
}

/// `XDG_CONFIG_HOME` is set and not empty.
pub open spec fn xdg_set(xdg: Option<String>) -> bool {
    xdg is Some && xdg->0@.len() > 0
}

/// The configuration directory of an application, from `XDG_CONFIG_HOME` and
/// `HOME` (`None` when unset): `$XDG_CONFIG_HOME/<app>` when it is set and not
/// empty, else `$HOME/.config/<app>`, else `./<app>`.
pub fn config_dir_for(app_name: &str, xdg: Option<String>, home: Option<String>) -> (r: String)
    ensures
        xdg_set(xdg) ==> r@ == join_spec(xdg->0@, app_name@),
        !xdg_set(xdg) && home is Some ==> r@ == join_spec(
            join_spec(home->0@, ".config"@),
            app_name@,
        ),
        !xdg_set(xdg) && home is None ==> r@ == join_spec("."@, app_name@),
{
    match &xdg {
        Some(x) => {
            if !x.as_str().is_empty() {
                return join(x.as_str(), app_name);
            }
        },
        None => {},
    }
    match &home {
        Some(h) => {
            let c = join(h.as_str(), ".config");
            join(c.as_str(), app_name)
        },
        None => join(".", app_name),
    }
}

/// The directory to load the store from at startup: the data directory of the
/// settings found in the default directory when one is set and holds a
/// settings file (`custom_has_settings`), else the default directory.
pub fn choose_store_dir(default_dir: &str, data_dir: &str, custom_has_settings: bool) -> (r: String)
    ensures
        data_dir@.len() == 0 ==> r@ == default_dir@,
        data_dir@.len() > 0 && custom_has_settings ==> r@ == data_dir@,
        data_dir@.len() > 0 && !custom_has_settings ==> r@ == default_dir@,
{
    if data_dir.is_empty() {
        owned(default_dir)
    } else if custom_has_settings {
        owned(data_dir)
    } else {
        owned(default_dir)
    }
}

// ---------------------------------------------------------------------------
// Tray menu and command line
// ---------------------------------------------------------------------------

/// What a tray menu entry does.
#[derive(Clone, Copy, PartialEq, Eq, Structural, Debug)]
pub enum TrayAction {
    Open,
    Clear,
    Quit,
    Nothing,
}

/// The action of the tray menu entry with this id: `open`, `clear` (pinned
/// items are kept) or `quit`.
pub fn tray_action(id: &str) -> (r: TrayAction)
    ensures
        id@ == "open"@ ==> r == TrayAction::Open,
        id@ == "clear"@ ==> r == TrayAction::Clear,
        id@ == "quit"@ ==> r == TrayAction::Quit,
        id@ != "open"@ && id@ != "clear"@ && id@ != "quit"@ ==> r == TrayAction::Nothing,
{
    proof {
        reveal_strlit("open");
        reveal_strlit("clear");
        reveal_strlit("quit");
        assert("open"@ != "clear"@ && "open"@ != "quit"@ && "clear"@ != "quit"@) by {
            assert("open"@[0] != "clear"@[0]);
            assert("open"@[0] != "quit"@[0]);
            assert("clear"@[0] != "quit"@[0]);
        }
    }
    if same_text(id, "open") {
        TrayAction::Open
    } else if same_text(id, "clear") {
        TrayAction::Clear
    } else if same_text(id, "quit") {
        TrayAction::Quit
    } else {
        TrayAction::Nothing
    }
}

/// Whether `flag` is one of the command-line arguments.
pub fn has_arg(args: &Vec<String>, flag: &str) -> (r: bool)
    ensures
        r == exists|i: int| 0 <= i < args@.len() && #[trigger] args@[i]@ == flag@,
{
    let n = args.len();
    for i in 0..n
        invariant
            n == args.len(),
            forall|j: int| 0 <= j < i ==> #[trigger] args@[j]@ != flag@,
    {
        if same_text(args[i].as_str(), flag) {
            return true;
        }
    }
    false
}

// ---------------------------------------------------------------------------
// Laws
// ---------------------------------------------------------------------------

/// A value that this application put on the clipboard itself is never recorded.
pub proof fn law_own_value_not_recorded(last: Option<Seq<char>>, c: ClipView)
    requires
        content_sig(c) is Some,
    ensures
        !(watch_spec(last, content_sig(c), c) is Record),
{
}

/// An unchanged clipboard is not recorded again.
pub proof fn law_unchanged_not_recorded(own: Option<Seq<char>>, c: ClipView)
    ensures
        watch_spec(content_sig(c), own, c) is Ignore,
{
}

/// A text and an image never have the same signature.
pub proof fn law_text_and_image_sigs_differ(t: Seq<char>, bytes: Seq<u8>)
    ensures
        text_sig(t) != image_content_sig(bytes),
{
    assert(text_sig(t)[0] == 't');
    assert(image_content_sig(bytes)[0] == 'i');
}

/// The text signature is `t:` followed by the whole text, so two different
/// texts never share a signature.
pub proof fn law_text_sig_keeps_text(t1: Seq<char>, t2: Seq<char>)
    ensures
        text_sig(t1).len() == t1.len() + 2,
        text_sig(t1)[0] == 't' && text_sig(t1)[1] == ':',
        text_sig(t1).subrange(2, text_sig(t1).len() as int) == t1,
        t1 != t2 ==> text_sig(t1) != text_sig(t2),
{
    assert(text_sig(t1).subrange(2, text_sig(t1).len() as int) =~= t1);
    assert(text_sig(t2).subrange(2, text_sig(t2).len() as int) =~= t2);
}

/// A text copied after a different text is recorded (unless this application
/// put it on the clipboard itself), however much the two texts share.
pub proof fn law_new_text_recorded(before: Seq<char>, after: Seq<char>, own: Option<Seq<char>>)
    requires
        before != after,
        own != Some(text_sig(after)),
    ensures
        watch_spec(Some(text_sig(before)), own, ClipView::Text(after)) == WatchView::Record(
            text_sig(after),
        ),
{
    law_text_sig_keeps_text(before, after);
}

/// Content that differs, by its signature, from what the last poll read and
/// from what this application put on the clipboard itself is recorded.
pub proof fn law_changed_content_recorded(last: Option<Seq<char>>, own: Option<Seq<char>>, c: ClipView)
    requires
        content_sig(c) is Some,
        last != content_sig(c),
        own != content_sig(c),
    ensures
        watch_spec(last, own, c) == WatchView::Record(content_sig(c)->0),
{
}

/// An image whose bytes hash differently from the image read last is recorded,
/// whatever the sizes of the two (unless this application put it there itself).
pub proof fn law_new_image_recorded(before: Seq<u8>, after: Seq<u8>, own: Option<Seq<char>>)
    requires
        image_sig(before) != image_sig(after),
        own != Some(image_content_sig(after)),
    ensures
        watch_spec(Some(image_content_sig(before)), own, ClipView::Image(after))
            == WatchView::Record(image_content_sig(after)),
{
    if image_content_sig(before) == image_content_sig(after) {
        assert(image_content_sig(before).subrange(2, image_content_sig(before).len() as int)
            =~= image_sig(before));
        assert(image_content_sig(after).subrange(2, image_content_sig(after).len() as int)
            =~= image_sig(after));
    }
}

/// The window starts hidden unless the command line asks to show it with
/// `--show`, or with `--toggle` on a first start.
pub fn starts_hidden(args: &Vec<String>) -> (r: bool)
    ensures
        r == !((exists|i: int| 0 <= i < args@.len() && #[trigger] args@[i]@ == "--show"@) || (exists|
            i: int,
        |
            0 <= i < args@.len() && #[trigger] args@[i]@ == "--toggle"@)),
{
    !(has_arg(args, "--show") || has_arg(args, "--toggle"))
}

} // verus!
