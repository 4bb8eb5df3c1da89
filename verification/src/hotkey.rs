//! The GNOME custom keybinding that toggles the overlay: reading and writing
//! the GVariant list of keybinding paths, and the `gsettings` calls that
//! register and unregister it.
use vstd::prelude::*;
use crate::store::opt_chars;
use crate::text::{
    is_trimmed, lemma_split_after_sep, lemma_split_pieces, lemma_split_single, lemma_trim_end_at,
    lemma_trim_keeps_free, lemma_trim_start_at, owned, push_char, push_str, same_text,
    slice_chars, split_chars, split_spec, string_of, trim_chars, trim_spec, trim_start_spec,
    trim_str, trim_ws,
};

verus! {

// ---------------------------------------------------------------------------
// The model
// ---------------------------------------------------------------------------

/// The character sequences of some strings.
pub open spec fn strs(v: Seq<String>) -> Seq<Seq<char>> {
    v.map_values(|x: String| x@)
}

/// The position of the first `c` in `s`, or the length when there is none.
pub open spec fn find_first(s: Seq<char>, c: char) -> int
    decreases s.len(),
{
    if s.len() == 0 {
        0
    } else if s[0] == c {
        0
    } else {
        1 + find_first(s.drop_first(), c)
    }
}

/// The position of the last `c` in `s`, or -1 when there is none.
pub open spec fn find_last(s: Seq<char>, c: char) -> int
    decreases s.len(),
{
    if s.len() == 0 {
        -1
    } else if s.last() == c {
        s.len() - 1
    } else {
        find_last(s.drop_last(), c)
    }
}

/// One entry between commas: trimmed, unquoted, trimmed again.
pub open spec fn clean_entry(g: Seq<char>) -> Seq<char> {
    trim_ws(trim_spec(trim_ws(g), true))
}

/// The cleaned entries, the empty ones left out.
pub open spec fn clean_entries(segs: Seq<Seq<char>>) -> Seq<Seq<char>>
    decreases segs.len(),
{
    if segs.len() == 0 {
        Seq::empty()
    } else {
        let r = clean_entries(segs.drop_last());
        let c = clean_entry(segs.last());
        if c.len() == 0 {
            r
        } else {
            r.push(c)
        }
    }
}

/// The entries of a GVariant array of strings such as `['a', 'b']` or `@as []`:
/// whatever stands between the first `[` and the last `]`, split at commas.
pub open spec fn parse_spec(s: Seq<char>) -> Seq<Seq<char>> {
    let t = trim_ws(s);
    let a = find_first(t, '[');
    let b = find_last(t, ']');
    if b <= a {
        Seq::empty()
    } else {
        clean_entries(split_spec(t.subrange(a + 1, b), ','))
    }
}

/// An entry in single quotes.
pub open spec fn quoted(p: Seq<char>) -> Seq<char> {
    seq!['\''] + p + seq!['\'']
}

/// The quoted entries separated by `, `.
pub open spec fn join_quoted(ps: Seq<Seq<char>>) -> Seq<char>
    decreases ps.len(),
{
    if ps.len() == 0 {
        Seq::empty()
    } else if ps.len() == 1 {
        quoted(ps[0])
    } else {
        join_quoted(ps.drop_last()) + seq![',', ' '] + quoted(ps.last())
    }
}

/// The GVariant text of a list of strings: `[]`, or `['a', 'b']`.
pub open spec fn format_spec(ps: Seq<Seq<char>>) -> Seq<char> {
    seq!['['] + join_quoted(ps) + seq![']']
}

/// The path of this application's custom keybinding.
pub open spec fn kb_path() -> Seq<char> {
    "/org/gnome/settings-daemon/plugins/media-keys/custom-keybindings/cleepboard/"@
}

/// The list with this application's keybinding path added when missing.
pub open spec fn with_binding(ps: Seq<Seq<char>>) -> Seq<Seq<char>> {
    if ps.contains(kb_path()) {
        ps
    } else {
        ps.push(kb_path())
    }
}

/// Holds of every path but this application's.
pub open spec fn not_ours() -> spec_fn(Seq<char>) -> bool {
    |p: Seq<char>| p != kb_path()
}

/// The stored list, or `default` when it could not be read.
pub open spec fn or_default(current: Option<Seq<char>>, default: Seq<char>) -> Seq<char> {
    match current {
        Some(c) => c,
        None => default,
    }
}

/// The list of keybinding paths after registering.
pub open spec fn registered_list(current: Option<Seq<char>>) -> Seq<char> {
    format_spec(with_binding(parse_spec(or_default(current, "@as []"@))))
}

/// The list of keybinding paths after unregistering.
pub open spec fn unregistered_list(current: Option<Seq<char>>) -> Seq<char> {
    format_spec(parse_spec(or_default(current, "@as []"@)).filter(not_ours()))
}

/// An entry that survives a round through the GVariant text: not empty, no
/// comma, no surrounding whitespace, no quote at either end.
pub open spec fn clean_path(p: Seq<char>) -> bool {
    &&& p.len() > 0
    &&& forall|i: int| 0 <= i < p.len() ==> #[trigger] p[i] != ','
    &&& trim_ws(p) == p
    &&& p[0] != '\''
    &&& p.last() != '\''
}

/// No comma in the entry.
pub open spec fn comma_free(p: Seq<char>) -> bool {
    forall|i: int| 0 <= i < p.len() ==> #[trigger] p[i] != ','
}

pub open spec fn all_comma_free(ps: Seq<Seq<char>>) -> bool {
    forall|i: int| 0 <= i < ps.len() ==> comma_free(#[trigger] ps[i])
}

pub open spec fn all_clean(ps: Seq<Seq<char>>) -> bool {
    forall|i: int| 0 <= i < ps.len() ==> clean_path(#[trigger] ps[i])
}

// ---------------------------------------------------------------------------
// Executable functions
// ---------------------------------------------------------------------------

fn find_first_char(s: &Vec<char>, c: char) -> (r: usize)
    ensures
        r == find_first(s@, c),
{
    let n = s.len();
    let mut i: usize = 0;
    while i < n && s[i] != c
        invariant
            0 <= i <= n == s.len(),
            forall|j: int| 0 <= j < i ==> #[trigger] s@[j] != c,
        decreases n - i,
    {
        i += 1;
    }
    proof {
        lemma_find_first_at(s@, c, i as int);
    }
    i
}

/// The position of the last `c`, if any.
fn find_last_char(s: &Vec<char>, c: char) -> (r: Option<usize>)
    ensures
        match r {
            Some(k) => k == find_last(s@, c),
            None => find_last(s@, c) == -1,
        },
{
    let mut j: usize = s.len();
    while j > 0 && s[j - 1] != c
        invariant
            j <= s.len(),
            forall|m: int| j <= m < s.len() ==> #[trigger] s@[m] != c,
        decreases j,
    {
        j -= 1;
    }
    proof {
        lemma_find_last_at(s@, c, j as int);
    }
    if j == 0 {
        None
    } else {
        Some(j - 1)
    }
}

/// The entries of a GVariant array of strings, such as `['a', 'b']`
/// (`@as []` when empty).
pub fn parse_gvariant_list(s: &str) -> (r: Vec<String>)
    ensures
        strs(r@) == parse_spec(s@),
{
    let t = trim_str(s);
    let a = find_first_char(&t, '[');
    let b = match find_last_char(&t, ']') {
        Some(b) => b,
        None => {
            let e: Vec<String> = Vec::new();
            assert(strs(e@) =~= Seq::<Seq<char>>::empty());
            return e;
        },
    };
    if b <= a {
        let e: Vec<String> = Vec::new();
        assert(strs(e@) =~= Seq::<Seq<char>>::empty());
        return e;
    }
    proof {
        lemma_find_first_bound(t@, '[');
        lemma_find_last_bound(t@, ']');
    }
    let inner = slice_chars(&t, a + 1, b);
    let segs = split_chars(&inner, ',');
    let ghost gsegs = split_spec(inner@, ',');
    let mut r: Vec<String> = Vec::new();
    let n = segs.len();
    for i in 0..n
        invariant
            n == segs.len() == gsegs.len(),
            forall|k: int| 0 <= k < n ==> #[trigger] segs@[k]@ == gsegs[k],
            strs(r@) == clean_entries(gsegs.take(i as int)),
    {
        proof {
            assert(gsegs.take(i + 1).drop_last() =~= gsegs.take(i as int));
            assert(gsegs.take(i + 1).last() == gsegs[i as int]);
        }
        let c1 = trim_chars(&segs[i], false);
        let c2 = trim_chars(&c1, true);
        let c3 = trim_chars(&c2, false);
        if c3.len() > 0 {
            let ghost before = strs(r@);
            let e = string_of(&c3);
            r.push(e);
            assert(strs(r@) =~= before.push(c3@));
        }
    }
    assert(gsegs.take(n as int) =~= gsegs);
    r
}

/// The GVariant text of a list of strings: `[]`, or `['a', 'b']`.
pub fn format_gvariant_list(paths: &[String]) -> (r: String)
    ensures
        r@ == format_spec(strs(paths@)),
{
    let ghost ps = strs(paths@);
    let mut r = String::new();
    push_char(&mut r, '[');
    let n = paths.len();
    for i in 0..n
        invariant
            n == paths@.len() == ps.len(),
            ps == strs(paths@),
            r@ == seq!['['] + join_quoted(ps.take(i as int)),
    {
        proof {
            assert(ps.take(i + 1).drop_last() =~= ps.take(i as int));
            assert(ps.take(i + 1).last() == ps[i as int]);
            assert(ps[i as int] == paths@[i as int]@);
            if i == 0 {
                assert(ps.take(1)[0] == ps[0]);
            }
        }
        if i > 0 {
            push_char(&mut r, ',');
            push_char(&mut r, ' ');
        }
        push_char(&mut r, '\'');
        push_str(&mut r, paths[i].as_str());
        push_char(&mut r, '\'');
        proof {
            assert(r@ =~= seq!['['] + join_quoted(ps.take(i + 1)));
        }
    }
    push_char(&mut r, ']');
    assert(ps.take(n as int) =~= ps);
    r
}

/// The value printed by `gsettings get`, without surrounding whitespace.
pub fn gsettings_value(raw: &str) -> (r: String)
    ensures
        r@ == trim_ws(raw@),
{
    let t = trim_str(raw);
    string_of(&t)
}

/// One `gsettings` invocation, and the error to report when it fails.
pub struct GsettingsCall {
    pub args: Vec<String>,
    pub error: String,
}

/// The `gsettings set` calls that carry out a change, in order, and the
/// message to report when all of them succeed.
pub struct KeybindingPlan {
    pub calls: Vec<GsettingsCall>,
    pub message: String,
}

/// The media-keys schema.
pub open spec fn schema() -> Seq<char> {
    "org.gnome.settings-daemon.plugins.media-keys"@
}

/// The custom keybinding schema, relocated to this application's path.
pub open spec fn relocatable() -> Seq<char> {
    "org.gnome.settings-daemon.plugins.media-keys.custom-keybinding"@ + ":"@ + kb_path()
}

fn kb_path_string() -> (r: String)
    ensures
        r@ == kb_path(),
{
    owned("/org/gnome/settings-daemon/plugins/media-keys/custom-keybindings/cleepboard/")
}

fn args4(a: String, b: String, c: String, d: String) -> (r: Vec<String>)
    ensures
        strs(r@) == seq![a@, b@, c@, d@],
{
    let mut v: Vec<String> = Vec::new();
    v.push(a);
    v.push(b);
    v.push(c);
    v.push(d);
    assert(strs(v@) =~= seq![a@, b@, c@, d@]);
    v
}

/// The arguments of the `gsettings` call that reads the list of custom keybindings.
pub fn read_list_args() -> (r: Vec<String>)
    ensures
        strs(r@) == seq!["get"@, schema(), "custom-keybindings"@],
{
    let mut v: Vec<String> = Vec::new();
    v.push(owned("get"));
    v.push(owned("org.gnome.settings-daemon.plugins.media-keys"));
    v.push(owned("custom-keybindings"));
    assert(strs(v@) =~= seq!["get"@, schema(), "custom-keybindings"@]);
    v
}

/// The error when `gsettings` is missing: while registering, or otherwise.
pub fn missing_gsettings(registering: bool) -> (r: String)
    ensures
        r@ == if registering {
            "gsettings not found (not a GNOME session)"@
        } else {
            "gsettings not found"@
        },
{
    if registering {
        owned("gsettings not found (not a GNOME session)")
    } else {
        owned("gsettings not found")
    }
}

/// The path list with `kb` added unless it is there.
fn add_path(paths: Vec<String>, kb: String) -> (r: Vec<String>)
    requires
        kb@ == kb_path(),
    ensures
        strs(r@) == with_binding(strs(paths@)),
{
    let ghost ps = strs(paths@);
    let n = paths.len();
    let mut i: usize = 0;
    while i < n
        invariant
            n == paths.len(),
            ps == strs(paths@),
            kb@ == kb_path(),
            0 <= i <= n,
            forall|j: int| 0 <= j < i ==> ps[j] != kb_path(),
        decreases n - i,
    {
        assert(ps[i as int] == paths@[i as int]@);
        if same_text(paths[i].as_str(), kb.as_str()) {
            assert(ps.contains(kb_path()));
            return paths;
        }
        i += 1;
    }
    assert(!ps.contains(kb_path()));
    let mut paths = paths;
    paths.push(kb);
    assert(strs(paths@) =~= ps.push(kb_path()));
    paths
}

/// The path list without `kb`.
fn remove_path(paths: Vec<String>, kb: &String) -> (r: Vec<String>)
    requires
        kb@ == kb_path(),
    ensures
        strs(r@) == strs(paths@).filter(not_ours()),
{
    let ghost ps = strs(paths@);
    let mut r: Vec<String> = Vec::new();
    let mut rest = paths;
    let ghost mut k: int = 0;
    proof {
        reveal(Seq::filter);
        assert(ps.take(0) =~= Seq::<Seq<char>>::empty());
        assert(strs(rest@) =~= ps.skip(0));
        assert(strs(r@) =~= ps.take(0).filter(not_ours()));
    }
    while rest.len() > 0
        invariant
            0 <= k <= ps.len(),
            kb@ == kb_path(),
            strs(rest@) == ps.skip(k),
            strs(r@) == ps.take(k).filter(not_ours()),
        decreases rest.len(),
    {
        let ghost before = rest@;
        proof {
            assert(strs(before).len() == before.len());
            assert(strs(before)[0] == before[0]@);
            assert(ps.skip(k)[0] == ps[k]);
        }
        let x = rest.remove(0);
        proof {
            assert(strs(rest@) =~= strs(before).drop_first());
            assert(ps.skip(k).drop_first() =~= ps.skip(k + 1));
            assert(ps.take(k + 1) =~= ps.take(k).push(ps[k]));
            ps.take(k).lemma_filter_push(ps[k], not_ours());
        }
        let ghost r0 = strs(r@);
        if !same_text(x.as_str(), kb.as_str()) {
            r.push(x);
            assert(strs(r@) =~= r0.push(ps[k]));
        }
        proof {
            k = k + 1;
        }
    }
    assert(ps.skip(k).len() == 0);
    assert(ps.take(k) =~= ps);
    r
}

fn or_default_string(current: Option<String>, default: &str) -> (r: String)
    ensures
        r@ == or_default(opt_chars(current), default@),
{
    match current {
        Some(c) => c,
        None => owned(default),
    }
}

/// What registering the keybinding does, given the running executable `exe`,
/// the key `binding`, and the list of custom keybindings as read (`None` when it
/// could not be read): the list gains this application's path, then the name,
/// the command `<exe> --toggle` and the binding are set.
pub fn register(exe: &str, binding: &str, current: Option<String>) -> (r: KeybindingPlan)
    ensures
        r.calls@.len() == 4,
        strs(r.calls@[0].args@) == seq![
            "set"@,
            schema(),
            "custom-keybindings"@,
            registered_list(opt_chars(current)),
        ],
        r.calls@[0].error@ == "failed to set custom-keybindings list"@,
        strs(r.calls@[1].args@) == seq!["set"@, relocatable(), "name"@, "Cleepboard Toggle"@],
        r.calls@[1].error@ == "failed to set name"@,
        strs(r.calls@[2].args@) == seq!["set"@, relocatable(), "command"@, exe@ + " --toggle"@],
        r.calls@[2].error@ == "failed to set command"@,
        strs(r.calls@[3].args@) == seq!["set"@, relocatable(), "binding"@, binding@],
        r.calls@[3].error@ == "failed to set binding"@,
        r.message@ == "Registered "@ + binding@ + " -> "@ + exe@ + " --toggle"@,
{
    let mut command = owned(exe);
    push_str(&mut command, " --toggle");
    let cur = or_default_string(current, "@as []");
    let paths = parse_gvariant_list(cur.as_str());
    let paths = add_path(paths, kb_path_string());
    let list = format_gvariant_list(paths.as_slice());
    let mut rel = owned("org.gnome.settings-daemon.plugins.media-keys.custom-keybinding");
    push_str(&mut rel, ":");
    push_str(&mut rel, "/org/gnome/settings-daemon/plugins/media-keys/custom-keybindings/cleepboard/");
    let mut calls: Vec<GsettingsCall> = Vec::new();
    calls.push(GsettingsCall {
        args: args4(owned("set"), owned("org.gnome.settings-daemon.plugins.media-keys"), owned("custom-keybindings"), list),
        error: owned("failed to set custom-keybindings list"),
    });
    calls.push(GsettingsCall {
        args: args4(owned("set"), rel.clone(), owned("name"), owned("Cleepboard Toggle")),
        error: owned("failed to set name"),
    });
    calls.push(GsettingsCall {
        args: args4(owned("set"), rel.clone(), owned("command"), command.clone()),
        error: owned("failed to set command"),
    });
    calls.push(GsettingsCall {
        args: args4(owned("set"), rel, owned("binding"), owned(binding)),
        error: owned("failed to set binding"),
    });
    let mut message = owned("Registered ");
    push_str(&mut message, binding);
    push_str(&mut message, " -> ");
    push_str(&mut message, command.as_str());
    KeybindingPlan { calls, message }
}

/// What unregistering the keybinding does, given the list of custom
/// keybindings as read: the list loses this application's path.
pub fn unregister(current: Option<String>) -> (r: KeybindingPlan)
    ensures
        r.calls@.len() == 1,
        strs(r.calls@[0].args@) == seq![
            "set"@,
            schema(),
            "custom-keybindings"@,
            unregistered_list(opt_chars(current)),
        ],
        r.calls@[0].error@ == "failed to update list"@,
        r.message@ == "Unregistered"@,
{
    let cur = or_default_string(current, "@as []");
    let paths = parse_gvariant_list(cur.as_str());
    let kb = kb_path_string();
    let paths = remove_path(paths, &kb);
    let list = format_gvariant_list(paths.as_slice());
    let mut calls: Vec<GsettingsCall> = Vec::new();
    calls.push(GsettingsCall {
        args: args4(owned("set"), owned("org.gnome.settings-daemon.plugins.media-keys"), owned("custom-keybindings"), list),
        error: owned("failed to update list"),
    });
    KeybindingPlan { calls, message: owned("Unregistered") }
}

/// Whether this application's keybinding is in the list of custom keybindings
/// as read (`None` when it could not be read).
pub fn is_registered(current: Option<String>) -> (r: bool)
    ensures
        r == parse_spec(or_default(opt_chars(current), Seq::empty())).contains(kb_path()),
{
    let cur = match current {
        Some(c) => c,
        None => String::new(),
    };
    assert(cur@ == or_default(opt_chars(current), Seq::empty()));
    let paths = parse_gvariant_list(cur.as_str());
    let kb = kb_path_string();
    let ghost ps = strs(paths@);
    let n = paths.len();
    for i in 0..n
        invariant
            n == paths.len(),
            ps == strs(paths@),
            ps == parse_spec(or_default(opt_chars(current), Seq::empty())),
            kb@ == kb_path(),
            forall|j: int| 0 <= j < i ==> ps[j] != kb_path(),
    {
        assert(ps[i as int] == paths@[i as int]@);
        if same_text(paths[i].as_str(), kb.as_str()) {
            assert(ps.contains(kb_path()));
            return true;
        }
    }
    false
}

/// Which call of a plan runs next, given whether each call that ran so far
/// succeeded: the one after them while every one of them succeeded and calls
/// are left; none once a call failed or every call has run.
pub fn next_call(plan: &KeybindingPlan, ran: &Vec<bool>) -> (r: Option<usize>)
    ensures
        r is Some <==> ran@.len() < plan.calls@.len() && forall|k: int|
            0 <= k < ran@.len() ==> #[trigger] ran@[k],
        r matches Some(i) ==> i == ran@.len(),
{
    let n = ran.len();
    for i in 0..n
        invariant
            n == ran.len(),
            forall|j: int| 0 <= j < i ==> #[trigger] ran@[j],
    {
        if !ran[i] {
            return None;
        }
    }
    if n < plan.calls.len() {
        Some(n)
    } else {
        None
    }
}

/// The outcome of running a plan, given whether each call that ran succeeded
/// (the calls run in order and stop at the first failure): the error of the
/// first failed call, or the plan's message.
pub fn plan_outcome(plan: &KeybindingPlan, ran: &Vec<bool>) -> (r: Result<String, String>)
    requires
        ran@.len() <= plan.calls@.len(),
    ensures
        match r {
            Ok(m) => m@ == plan.message@ && forall|k: int| 0 <= k < ran@.len() ==> #[trigger] ran@[k],
            Err(e) => exists|k: int|
                0 <= k < ran@.len() && k < plan.calls@.len() && !ran@[k] && e@ == plan.calls@[k].error@
                    && forall|j: int| 0 <= j < k ==> #[trigger] ran@[j],
        },
        (forall|k: int| 0 <= k < ran@.len() ==> #[trigger] ran@[k]) ==> r is Ok,
{
    let n = ran.len();
    for i in 0..n
        invariant
            n == ran.len() <= plan.calls@.len(),
            forall|j: int| 0 <= j < i ==> #[trigger] ran@[j],
    {
        if !ran[i] {
            return Err(plan.calls[i].error.clone());
        }
    }
    Ok(plan.message.clone())
}

// ---------------------------------------------------------------------------
// Lemmas
// ---------------------------------------------------------------------------

pub proof fn lemma_find_first_at(s: Seq<char>, c: char, i: int)
    requires
        0 <= i <= s.len(),
        forall|j: int| 0 <= j < i ==> #[trigger] s[j] != c,
        i == s.len() || s[i] == c,
    ensures
        find_first(s, c) == i,
    decreases i,
{
    if i > 0 {
        let t = s.drop_first();
        assert forall|j: int| 0 <= j < i - 1 implies #[trigger] t[j] != c by {
            assert(t[j] == s[j + 1]);
        }
        lemma_find_first_at(t, c, i - 1);
    }
}

pub proof fn lemma_find_first_bound(s: Seq<char>, c: char)
    ensures
        0 <= find_first(s, c) <= s.len(),
    decreases s.len(),
{
    if s.len() > 0 && s[0] != c {
        lemma_find_first_bound(s.drop_first(), c);
    }
}

pub proof fn lemma_find_last_at(s: Seq<char>, c: char, j: int)
    requires
        0 <= j <= s.len(),
        forall|m: int| j <= m < s.len() ==> #[trigger] s[m] != c,
        j == 0 || s[j - 1] == c,
    ensures
        find_last(s, c) == j - 1,
    decreases s.len(),
{
    if s.len() > j {
        let t = s.drop_last();
        assert(s.last() == s[s.len() - 1]);
        assert forall|m: int| j <= m < t.len() implies #[trigger] t[m] != c by {
            assert(t[m] == s[m]);
        }
        if j > 0 {
            assert(t[j - 1] == s[j - 1]);
        }
        lemma_find_last_at(t, c, j);
    }
}

pub proof fn lemma_find_last_bound(s: Seq<char>, c: char)
    ensures
        -1 <= find_last(s, c) < s.len(),
    decreases s.len(),
{
    if s.len() > 0 && s.last() != c {
        lemma_find_last_bound(s.drop_last(), c);
    }
}

/// The pieces between the commas of `join_quoted(ps)`.
pub open spec fn pieces(ps: Seq<Seq<char>>) -> Seq<Seq<char>> {
    Seq::new(
        ps.len(),
        |i: int|
            if i == 0 {
                quoted(ps[0])
            } else {
                seq![' '] + quoted(ps[i])
            },
    )
}

pub proof fn lemma_split_join(ps: Seq<Seq<char>>)
    requires
        ps.len() > 0,
        all_comma_free(ps),
    ensures
        split_spec(join_quoted(ps), ',') == pieces(ps),
    decreases ps.len(),
{
    let q = quoted(ps.last());
    assert(comma_free(ps[ps.len() - 1]));
    assert forall|i: int| 0 <= i < q.len() implies #[trigger] q[i] != ',' by {
        if 0 < i < q.len() - 1 {
            assert(q[i] == ps.last()[i - 1]);
        }
    }
    if ps.len() == 1 {
        lemma_split_single(q, ',');
        assert(pieces(ps) =~= seq![q]);
    } else {
        let d = ps.drop_last();
        assert forall|i: int| 0 <= i < d.len() implies comma_free(#[trigger] d[i]) by {
            assert(d[i] == ps[i]);
        }
        lemma_split_join(d);
        let b = seq![' '] + q;
        assert forall|i: int| 0 <= i < b.len() implies #[trigger] b[i] != ',' by {
            if i > 0 {
                assert(b[i] == q[i - 1]);
            }
        }
        assert(join_quoted(ps) =~= join_quoted(d).push(',') + b);
        lemma_split_after_sep(join_quoted(d), b, ',');
        assert(pieces(d).push(b) =~= pieces(ps));
    }
}

pub proof fn lemma_clean_quoted(p: Seq<char>)
    requires
        clean_path(p),
    ensures
        clean_entry(quoted(p)) == p,
        clean_entry(seq![' '] + quoted(p)) == p,
{
    let q = quoted(p);
    assert(!is_trimmed(q[0], false));
    assert(!is_trimmed(q[q.len() - 1], false));
    assert(forall|j: int| 0 <= j < 0 ==> is_trimmed(#[trigger] q[j], false));
    lemma_trim_start_at(q, false, 0);
    assert(q.skip(0) =~= q);
    lemma_trim_end_at(q, false, q.len() as int);
    assert(q.take(q.len() as int) =~= q);
    assert(trim_ws(q) == q);
    // the quotes
    assert(q[1] == p[0]);
    assert(is_trimmed(q[0], true));
    lemma_trim_start_at(q, true, 1);
    let u = q.skip(1);
    assert(u =~= p + seq!['\'']);
    assert(u[u.len() - 1] == '\'');
    assert(u[p.len() - 1] == p.last());
    lemma_trim_end_at(u, true, p.len() as int);
    assert(u.take(p.len() as int) =~= p);
    assert(trim_spec(q, true) == p);
    // the leading space
    let sq = seq![' '] + q;
    assert(sq[0] == ' ');
    assert(is_trimmed(sq[0], false));
    assert(sq[1] == '\'');
    lemma_trim_start_at(sq, false, 1);
    assert(sq.skip(1) =~= q);
}

pub proof fn lemma_clean_pieces(ps: Seq<Seq<char>>)
    requires
        all_clean(ps),
    ensures
        clean_entries(pieces(ps)) == ps,
    decreases ps.len(),
{
    if ps.len() > 0 {
        let d = ps.drop_last();
        assert forall|i: int| 0 <= i < d.len() implies clean_path(#[trigger] d[i]) by {
            assert(d[i] == ps[i]);
        }
        lemma_clean_pieces(d);
        assert(pieces(ps).drop_last() =~= pieces(d));
        assert(clean_path(ps[ps.len() - 1]));
        lemma_clean_quoted(ps.last());
        assert(clean_entry(pieces(ps).last()) == ps.last());
        assert(ps =~= d.push(ps.last()));
    }
}

/// Reading back the GVariant text of comma-free entries cleans each quoted entry.
pub proof fn lemma_parse_format(ps: Seq<Seq<char>>)
    requires
        all_comma_free(ps),
    ensures
        ps.len() > 0 ==> parse_spec(format_spec(ps)) == clean_entries(pieces(ps)),
        ps.len() == 0 ==> parse_spec(format_spec(ps)).len() == 0,
{
    let f = format_spec(ps);
    let n = f.len() as int;
    assert(f[0] == '[');
    assert(f[n - 1] == ']');
    assert(forall|j: int| 0 <= j < 0 ==> is_trimmed(#[trigger] f[j], false));
    lemma_trim_start_at(f, false, 0);
    assert(f.skip(0) =~= f);
    assert(!is_trimmed(f[n - 1], false));
    lemma_trim_end_at(f, false, n);
    assert(f.take(n) =~= f);
    assert(trim_ws(f) == f);
    lemma_find_first_at(f, '[', 0);
    lemma_find_last_at(f, ']', n);
    assert(f.subrange(1, n - 1) =~= join_quoted(ps));
    assert(parse_spec(f) == clean_entries(split_spec(join_quoted(ps), ',')));
    if ps.len() == 0 {
        assert(join_quoted(ps) =~= Seq::<char>::empty());
        assert(split_spec(Seq::<char>::empty(), ',') == seq![Seq::<char>::empty()]);
        assert(seq![Seq::<char>::empty()].drop_last() =~= Seq::<Seq<char>>::empty());
        assert(clean_entry(Seq::<char>::empty()) =~= Seq::<char>::empty());
        let one = seq![Seq::<char>::empty()];
        assert(clean_entries(one.drop_last()) == Seq::<Seq<char>>::empty());
        assert(one.last() == Seq::<char>::empty());
        assert(clean_entries(one) == Seq::<Seq<char>>::empty());
    } else {
        lemma_split_join(ps);
    }
}

pub proof fn lemma_clean_implies_comma_free(ps: Seq<Seq<char>>)
    requires
        all_clean(ps),
    ensures
        all_comma_free(ps),
{
    assert forall|i: int| 0 <= i < ps.len() implies comma_free(#[trigger] ps[i]) by {
        assert(clean_path(ps[i]));
    }
}

/// Writing a list of clean entries as GVariant text and reading it back gives
/// the same list.
pub proof fn law_format_parse_roundtrip(ps: Seq<Seq<char>>)
    requires
        all_clean(ps),
    ensures
        parse_spec(format_spec(ps)) == ps,
{
    lemma_clean_implies_comma_free(ps);
    lemma_parse_format(ps);
    if ps.len() == 0 {
        assert(ps =~= Seq::<Seq<char>>::empty());
    } else {
        lemma_clean_pieces(ps);
    }
}

/// A segment that cleans to a non-empty entry gives that entry.
pub proof fn lemma_clean_entries_has(segs: Seq<Seq<char>>, k: int)
    requires
        0 <= k < segs.len(),
        clean_entry(segs[k]).len() > 0,
    ensures
        clean_entries(segs).contains(clean_entry(segs[k])),
    decreases segs.len(),
{
    let d = segs.drop_last();
    let r = clean_entries(d);
    if k == segs.len() - 1 {
        assert(clean_entries(segs) == r.push(clean_entry(segs.last())));
        assert(clean_entries(segs)[r.len() as int] == clean_entry(segs[k]));
    } else {
        assert(d[k] == segs[k]);
        lemma_clean_entries_has(d, k);
        let j = choose|j: int| 0 <= j < r.len() && r[j] == clean_entry(segs[k]);
        assert(clean_entries(segs)[j] == r[j]);
    }
}

/// Every entry that reading gives is free of commas.
pub proof fn lemma_parse_comma_free(s: Seq<char>)
    ensures
        all_comma_free(parse_spec(s)),
{
    let t = trim_ws(s);
    let a = find_first(t, '[');
    let b = find_last(t, ']');
    if b > a {
        lemma_find_first_bound(t, '[');
        lemma_find_last_bound(t, ']');
        let segs = split_spec(t.subrange(a + 1, b), ',');
        lemma_split_pieces(t.subrange(a + 1, b), ',');
        lemma_clean_entries_comma_free(segs);
    }
}

pub proof fn lemma_clean_entries_comma_free(segs: Seq<Seq<char>>)
    requires
        forall|k: int, i: int| 0 <= k < segs.len() && 0 <= i < segs[k].len() ==> #[trigger] segs[k][i] != ',',
    ensures
        all_comma_free(clean_entries(segs)),
    decreases segs.len(),
{
    if segs.len() > 0 {
        let d = segs.drop_last();
        assert forall|k: int, i: int| 0 <= k < d.len() && 0 <= i < d[k].len() implies #[trigger] d[k][i] != ',' by {
            assert(d[k] == segs[k]);
        }
        lemma_clean_entries_comma_free(d);
        let g = segs.last();
        assert(comma_free(g)) by {
            assert forall|i: int| 0 <= i < g.len() implies #[trigger] g[i] != ',' by {
                assert(segs[segs.len() - 1][i] != ',');
            }
        }
        lemma_trim_keeps_free(g, false, ',');
        lemma_trim_keeps_free(trim_ws(g), true, ',');
        lemma_trim_keeps_free(trim_spec(trim_ws(g), true), false, ',');
    }
}

/// This application's keybinding path is a clean entry.
pub proof fn lemma_kb_path_clean()
    ensures
        clean_path(kb_path()),
{
    reveal_strlit("/org/gnome/settings-daemon/plugins/media-keys/custom-keybindings/cleepboard/");
    let p = kb_path();
    assert(p.len() == 76);
    assert(!is_trimmed(p[0], false));
    assert(!is_trimmed(p[75], false));
    assert(forall|j: int| 0 <= j < 0 ==> is_trimmed(#[trigger] p[j], false));
    lemma_trim_start_at(p, false, 0);
    assert(p.skip(0) =~= p);
    lemma_trim_end_at(p, false, 76);
    assert(p.take(76) =~= p);
}

pub proof fn lemma_clean_filter(ps: Seq<Seq<char>>, f: spec_fn(Seq<char>) -> bool)
    requires
        all_clean(ps),
    ensures
        all_clean(ps.filter(f)),
    decreases ps.len(),
{
    reveal(Seq::filter);
    if ps.len() > 0 {
        let d = ps.drop_last();
        assert forall|i: int| 0 <= i < d.len() implies clean_path(#[trigger] d[i]) by {
            assert(d[i] == ps[i]);
        }
        lemma_clean_filter(d, f);
        assert(clean_path(ps[ps.len() - 1]));
    }
}

/// After registering, the keybinding is registered: the list written back
/// holds this application's path.
pub proof fn law_register_registers(current: Option<Seq<char>>)
    ensures
        parse_spec(registered_list(current)).contains(kb_path()),
{
    let ps = parse_spec(or_default(current, "@as []"@));
    lemma_kb_path_clean();
    lemma_parse_comma_free(or_default(current, "@as []"@));
    let w = with_binding(ps);
    assert(comma_free(kb_path()));
    assert(all_comma_free(w)) by {
        assert forall|i: int| 0 <= i < w.len() implies comma_free(#[trigger] w[i]) by {
            if i < ps.len() {
                assert(w[i] == ps[i]);
            }
        }
    }
    let k = if ps.contains(kb_path()) {
        choose|k: int| 0 <= k < ps.len() && ps[k] == kb_path()
    } else {
        ps.len() as int
    };
    assert(w[k] == kb_path());
    lemma_parse_format(w);
    lemma_clean_quoted(kb_path());
    assert(clean_entry(pieces(w)[k]) == kb_path());
    lemma_clean_entries_has(pieces(w), k);
}

/// Registering twice writes the same list as registering once.
pub proof fn law_register_idempotent(current: Option<Seq<char>>)
    requires
        all_clean(parse_spec(or_default(current, "@as []"@))),
    ensures
        registered_list(Some(registered_list(current))) == registered_list(current),
{
    let ps = parse_spec(or_default(current, "@as []"@));
    lemma_kb_path_clean();
    let w = with_binding(ps);
    assert(all_clean(w));
    law_format_parse_roundtrip(w);
    law_register_registers(current);
}

/// No entry other than this application's path turns into that path when it
/// is quoted and read back.
pub open spec fn no_entry_becomes_ours(ps: Seq<Seq<char>>) -> bool {
    forall|i: int|
        0 <= i < ps.len() && ps[i] != kb_path() ==> clean_entry(quoted(#[trigger] ps[i])) != kb_path()
}

/// Every entry that a filter keeps stood in the list before.
pub proof fn lemma_filter_members(ps: Seq<Seq<char>>, f: spec_fn(Seq<char>) -> bool)
    ensures
        forall|k: int|
            0 <= k < ps.filter(f).len() ==> exists|j: int|
                0 <= j < ps.len() && #[trigger] ps.filter(f)[k] == ps[j],
    decreases ps.len(),
{
    reveal(Seq::filter);
    if ps.len() > 0 {
        let d = ps.drop_last();
        lemma_filter_members(d, f);
        let r = d.filter(f);
        assert forall|k: int| 0 <= k < ps.filter(f).len() implies exists|j: int|
            0 <= j < ps.len() && #[trigger] ps.filter(f)[k] == ps[j] by {
            if k < r.len() {
                let j = choose|j: int| 0 <= j < d.len() && r[k] == d[j];
                assert(ps.filter(f)[k] == ps[j]);
            } else {
                assert(ps.filter(f)[k] == ps[ps.len() - 1]);
            }
        }
    }
}

/// Every entry that reading gives comes from one of the pieces.
pub proof fn lemma_clean_entries_from(segs: Seq<Seq<char>>)
    ensures
        forall|k: int|
            0 <= k < clean_entries(segs).len() ==> exists|j: int|
                0 <= j < segs.len() && #[trigger] clean_entries(segs)[k] == clean_entry(segs[j]),
    decreases segs.len(),
{
    if segs.len() > 0 {
        let d = segs.drop_last();
        lemma_clean_entries_from(d);
        let r = clean_entries(d);
        assert forall|k: int| 0 <= k < clean_entries(segs).len() implies exists|j: int|
            0 <= j < segs.len() && #[trigger] clean_entries(segs)[k] == clean_entry(segs[j]) by {
            if k < r.len() {
                let j = choose|j: int| 0 <= j < d.len() && r[k] == clean_entry(d[j]);
                assert(segs[j] == d[j]);
                assert(clean_entries(segs)[k] == r[k]);
            } else {
                assert(clean_entries(segs)[k] == clean_entry(segs[segs.len() - 1]));
            }
        }
    }
}

/// A leading space makes no difference to an entry.
pub proof fn lemma_clean_space(x: Seq<char>)
    ensures
        clean_entry(seq![' '] + x) == clean_entry(x),
{
    let sx = seq![' '] + x;
    assert(is_trimmed(sx[0], false));
    assert(sx.drop_first() =~= x);
    assert(trim_start_spec(sx, false) == trim_start_spec(x, false));
}

/// After unregistering, the keybinding is not registered. This holds unless
/// some other entry turns into this application's path when it is written
/// back quoted and read again.
pub proof fn law_unregister_unregisters(current: Option<Seq<char>>)
    requires
        no_entry_becomes_ours(parse_spec(or_default(current, "@as []"@))),
    ensures
        !parse_spec(unregistered_list(current)).contains(kb_path()),
{
    let ps = parse_spec(or_default(current, "@as []"@));
    let w = ps.filter(not_ours());
    lemma_parse_comma_free(or_default(current, "@as []"@));
    lemma_filter_members(ps, not_ours());
    assert(all_comma_free(w)) by {
        assert forall|i: int| 0 <= i < w.len() implies comma_free(#[trigger] w[i]) by {
            let j = choose|j: int| 0 <= j < ps.len() && w[i] == ps[j];
            assert(comma_free(ps[j]));
        }
    }
    lemma_parse_format(w);
    if w.len() > 0 {
        let out = clean_entries(pieces(w));
        lemma_clean_entries_from(pieces(w));
        if out.contains(kb_path()) {
            let k = choose|k: int| 0 <= k < out.len() && out[k] == kb_path();
            let j = choose|j: int| 0 <= j < pieces(w).len() && out[k] == clean_entry(pieces(w)[j]);
            if j > 0 {
                lemma_clean_space(quoted(w[j]));
            }
            assert(clean_entry(quoted(w[j])) == kb_path());
            ps.lemma_filter_pred(not_ours(), j);
            let q = choose|q: int| 0 <= q < ps.len() && w[j] == ps[q];
            assert(ps[q] != kb_path());
            assert(clean_entry(quoted(ps[q])) != kb_path());
        }
    }
}

/// After unregistering, every other entry is kept as it was (when the entries
/// read are clean).
pub proof fn law_unregister_keeps_others(current: Option<Seq<char>>)
    requires
        all_clean(parse_spec(or_default(current, "@as []"@))),
    ensures
        parse_spec(unregistered_list(current)) == parse_spec(or_default(current, "@as []"@)).filter(
            not_ours(),
        ),
{
    let ps = parse_spec(or_default(current, "@as []"@));
    let w = ps.filter(not_ours());
    lemma_clean_filter(ps, not_ours());
    law_format_parse_roundtrip(w);
}

} // verus!
