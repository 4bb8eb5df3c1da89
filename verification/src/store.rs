//! The clipboard history: items, settings, de-duplication, pinning and trimming.
//!
//! The history is a sequence of items. Pinned items stay in front of the
//! others; new items and refreshed unpinned ones go right after the last pinned item; at most
//! `max_history` (and at least one) unpinned items are kept.
use vstd::prelude::*;
use crate::text::{
    chars_of, contains_chars, contains_spec, dec_spec, hex_spec, is_blank, is_blank_spec,
    occurs_at, owned, push_str, same_text, slice_chars, string_of, dec_string, hex_string,
    digit_spec,
};
use crate::path::{join, join_spec, file_name, file_name_spec, lemma_join_file_name, plain_name};

verus! {

// ---------------------------------------------------------------------------
// Items and settings
// ---------------------------------------------------------------------------

/// What an item holds, as character sequences.
pub ghost struct ClipItemView {
    pub id: Seq<char>,
    pub kind: Seq<char>,
    pub text: Option<Seq<char>>,
    pub image_path: Option<Seq<char>>,
    pub preview: Seq<char>,
    pub pinned: bool,
    pub timestamp: u64,
}

/// One entry of the history: a text clip (`kind` "text") or an image clip
/// (`kind` "image", whose PNG lies at `image_path`).
#[derive(Clone, Debug)]
pub struct ClipItem {
    pub id: String,
    pub kind: String,
    pub text: Option<String>,
    pub image_path: Option<String>,
    pub preview: String,
    pub pinned: bool,
    pub timestamp: u64,
}

pub open spec fn opt_chars(o: Option<String>) -> Option<Seq<char>> {
    match o {
        Some(s) => Some(s@),
        None => None,
    }
}

impl View for ClipItem {
    type V = ClipItemView;

    open spec fn view(&self) -> ClipItemView {
        ClipItemView {
            id: self.id@,
            kind: self.kind@,
            text: opt_chars(self.text),
            image_path: opt_chars(self.image_path),
            preview: self.preview@,
            pinned: self.pinned,
            timestamp: self.timestamp,
        }
    }
}

/// The views of a sequence of items.
pub open spec fn views(items: Seq<ClipItem>) -> Seq<ClipItemView> {
    items.map_values(|i: ClipItem| i@)
}

/// User settings.
#[derive(Clone, Debug)]
pub struct Settings {
    pub max_history: usize,
    pub auto_paste: bool,
    pub theme: String,
    pub poll_ms: u64,
    pub launch_on_login: bool,
    pub data_dir: String,
}

impl Default for Settings {
    fn default() -> (s: Self)
        ensures
            s.max_history == 100,
            s.auto_paste,
            s.theme@ == "system"@,
            s.poll_ms == 700,
            !s.launch_on_login,
            s.data_dir@ == Seq::<char>::empty(),
    {
        Settings {
            max_history: 100,
            auto_paste: true,
            theme: owned("system"),
            poll_ms: 700,
            launch_on_login: false,
            data_dir: String::new(),
        }
    }
}

impl Settings {
    /// The same settings with `data_dir` replaced.
    pub fn with_data_dir(&self, dir: &str) -> (r: Settings)
        ensures
            r.max_history == self.max_history,
            r.auto_paste == self.auto_paste,
            r.theme@ == self.theme@,
            r.poll_ms == self.poll_ms,
            r.launch_on_login == self.launch_on_login,
            r.data_dir@ == dir@,
    {
        Settings {
            max_history: self.max_history,
            auto_paste: self.auto_paste,
            theme: self.theme.clone(),
            poll_ms: self.poll_ms,
            launch_on_login: self.launch_on_login,
            data_dir: owned(dir),
        }
    }
}

// ---------------------------------------------------------------------------
// The model of the history
// ---------------------------------------------------------------------------

/// The number of pinned items at the front of `s`.
pub open spec fn lead_pinned(s: Seq<ClipItemView>) -> nat
    decreases s.len(),
{
    if s.len() > 0 && s[0].pinned {
        1 + lead_pinned(s.drop_first())
    } else {
        0
    }
}

/// Where an item goes: a pinned one to the very front, another one right after
/// the leading pinned items.
pub open spec fn insert_pinned(s: Seq<ClipItemView>, x: ClipItemView) -> Seq<ClipItemView> {
    if x.pinned {
        seq![x] + s
    } else {
        s.insert(lead_pinned(s) as int, x)
    }
}

/// No unpinned item stands before a pinned one.
pub open spec fn pins_first(s: Seq<ClipItemView>) -> bool {
    forall|i: int, j: int| 0 <= i < j < s.len() && #[trigger] s[j].pinned ==> #[trigger] s[i].pinned
}

/// Holds of unpinned items.
pub open spec fn unpinned_pred() -> spec_fn(ClipItemView) -> bool {
    |v: ClipItemView| !v.pinned
}

/// Holds of pinned items.
pub open spec fn pinned_pred() -> spec_fn(ClipItemView) -> bool {
    |v: ClipItemView| v.pinned
}

/// The number of unpinned items.
pub open spec fn unpinned_count(s: Seq<ClipItemView>) -> nat {
    s.filter(unpinned_pred()).len()
}

/// The items that trimming to `m` unpinned items keeps: every pinned item, and
/// an unpinned one when fewer than `m` unpinned items stand before it.
pub open spec fn trim_keep(s: Seq<ClipItemView>, m: nat) -> Seq<ClipItemView>
    decreases s.len(),
{
    if s.len() == 0 {
        s
    } else {
        let r = trim_keep(s.drop_last(), m);
        if s.last().pinned || unpinned_count(s.drop_last()) < m {
            r.push(s.last())
        } else {
            r
        }
    }
}

/// The items that trimming to `m` unpinned items evicts, in history order.
pub open spec fn trim_drop(s: Seq<ClipItemView>, m: nat) -> Seq<ClipItemView>
    decreases s.len(),
{
    if s.len() == 0 {
        s
    } else {
        let r = trim_drop(s.drop_last(), m);
        if s.last().pinned || unpinned_count(s.drop_last()) < m {
            r
        } else {
            r.push(s.last())
        }
    }
}

/// How many unpinned items the history keeps: `max_history`, but at least one.
pub open spec fn history_limit(max_history: usize) -> nat {
    if max_history == 0 {
        1
    } else {
        max_history as nat
    }
}

/// The position of the first item that satisfies `p`, or the length when none does.
pub open spec fn first_match(s: Seq<ClipItemView>, p: spec_fn(ClipItemView) -> bool) -> int
    decreases s.len(),
{
    if s.len() == 0 {
        0
    } else if p(s[0]) {
        0
    } else {
        1 + first_match(s.drop_first(), p)
    }
}

pub open spec fn has_id(id: Seq<char>) -> spec_fn(ClipItemView) -> bool {
    |v: ClipItemView| v.id == id
}

/// A text item holding exactly `t`.
pub open spec fn holds_text(t: Seq<char>) -> spec_fn(ClipItemView) -> bool {
    |v: ClipItemView| v.kind == "text"@ && v.text == Some(t)
}

/// An image item whose file name contains the signature `sig`.
pub open spec fn holds_image(sig: Seq<char>) -> spec_fn(ClipItemView) -> bool {
    |v: ClipItemView|
        v.kind == "image"@ && v.image_path is Some && file_name_spec(v.image_path->0) is Some
            && contains_spec(file_name_spec(v.image_path->0)->0, sig)
}

/// The item at `p` stamped `now` and put back where an item of its kind of pin
/// goes: a pinned one to the very front, an unpinned one right after the pinned
/// items.
pub open spec fn moved_up(s: Seq<ClipItemView>, p: int, now: u64) -> Seq<ClipItemView> {
    insert_pinned(s.remove(p), ClipItemView { timestamp: now, ..s[p] })
}

/// The item at `p` stamped `now`: a pinned item keeps its place, an unpinned
/// one moves up to right after the pinned items.
pub open spec fn refreshed(s: Seq<ClipItemView>, p: int, now: u64) -> Seq<ClipItemView> {
    if s[p].pinned {
        s.update(p, ClipItemView { timestamp: now, ..s[p] })
    } else {
        moved_up(s, p, now)
    }
}

/// The item at `p` moved with its pin flipped.
pub open spec fn toggled(s: Seq<ClipItemView>, p: int) -> Seq<ClipItemView> {
    insert_pinned(s.remove(p), ClipItemView { pinned: !s[p].pinned, ..s[p] })
}

/// The first 160 characters of a text.
pub open spec fn preview_of(t: Seq<char>) -> Seq<char> {
    if t.len() <= 160 {
        t
    } else {
        t.take(160)
    }
}

/// A new text item.
pub open spec fn text_item(text: Seq<char>, now: u64, id: Seq<char>) -> ClipItemView {
    ClipItemView {
        id,
        kind: "text"@,
        text: Some(text),
        image_path: None,
        preview: preview_of(text),
        pinned: false,
        timestamp: now,
    }
}

/// The preview line of an image of `size` bytes: whole kilobytes from 1024 bytes on.
pub open spec fn image_preview(size: usize) -> Seq<char> {
    if size >= 1024 {
        "Image \u{b7} "@ + dec_spec((size / 1024) as nat) + " KB"@
    } else {
        "Image \u{b7} "@ + dec_spec(size as nat) + " B"@
    }
}

/// A new image item.
pub open spec fn image_item(path: Seq<char>, size: usize, now: u64, id: Seq<char>) -> ClipItemView {
    ClipItemView {
        id,
        kind: "image"@,
        text: None,
        image_path: Some(path),
        preview: image_preview(size),
        pinned: false,
        timestamp: now,
    }
}

/// FNV-1a, 64 bits.
pub open spec fn fnv1a(s: Seq<u8>) -> u64
    decreases s.len(),
{
    if s.len() == 0 {
        0xcbf29ce484222325u64
    } else {
        (((fnv1a(s.drop_last()) ^ (s.last() as u64)) as nat * 0x100000001b3nat)
            % 0x1_0000_0000_0000_0000nat) as u64
    }
}

/// The file name under which an image with signature `sig` is stored.
pub open spec fn image_file_name(now: u64, sig: Seq<char>) -> Seq<char> {
    "img_"@ + dec_spec(now as nat) + "_"@ + sig + ".png"@
}

/// The history after a new text item is added and the history trimmed.
pub open spec fn text_added(
    s: Seq<ClipItemView>,
    text: Seq<char>,
    now: u64,
    id: Seq<char>,
    m: nat,
) -> Seq<ClipItemView> {
    trim_keep(insert_pinned(s, text_item(text, now, id)), m)
}

/// The items evicted when a new text item is added.
pub open spec fn text_evicted(
    s: Seq<ClipItemView>,
    text: Seq<char>,
    now: u64,
    id: Seq<char>,
    m: nat,
) -> Seq<ClipItemView> {
    trim_drop(insert_pinned(s, text_item(text, now, id)), m)
}

/// The image signature of some bytes: the hexadecimal FNV-1a hash.
pub open spec fn image_sig(bytes: Seq<u8>) -> Seq<char> {
    hex_spec(fnv1a(bytes) as nat)
}

/// An item whose image file moved to `images_dst`: the same file name there.
pub open spec fn relocated(v: ClipItemView, images_dst: Seq<char>) -> ClipItemView {
    match v.image_path {
        Some(p) => match file_name_spec(p) {
            Some(f) => ClipItemView { image_path: Some(join_spec(images_dst, f)), ..v },
            None => v,
        },
        None => v,
    }
}

// ---------------------------------------------------------------------------
// Lemmas on the model
// ---------------------------------------------------------------------------

pub proof fn lemma_lead_pinned(s: Seq<ClipItemView>)
    ensures
        lead_pinned(s) <= s.len(),
        forall|j: int| 0 <= j < lead_pinned(s) ==> #[trigger] s[j].pinned,
        lead_pinned(s) < s.len() ==> !s[lead_pinned(s) as int].pinned,
    decreases s.len(),
{
    if s.len() > 0 && s[0].pinned {
        let t = s.drop_first();
        lemma_lead_pinned(t);
        assert forall|j: int| 0 <= j < lead_pinned(s) implies #[trigger] s[j].pinned by {
            if j > 0 {
                assert(s[j] == t[j - 1]);
            }
        }
    }
}

pub proof fn lemma_lead_pinned_at(s: Seq<ClipItemView>, i: int)
    requires
        0 <= i <= s.len(),
        forall|j: int| 0 <= j < i ==> #[trigger] s[j].pinned,
        i == s.len() || !s[i].pinned,
    ensures
        lead_pinned(s) == i,
    decreases i,
{
    if i > 0 {
        let t = s.drop_first();
        assert forall|j: int| 0 <= j < i - 1 implies #[trigger] t[j].pinned by {
            assert(t[j] == s[j + 1]);
        }
        lemma_lead_pinned_at(t, i - 1);
    }
}

pub proof fn lemma_first_match(s: Seq<ClipItemView>, p: spec_fn(ClipItemView) -> bool)
    ensures
        0 <= first_match(s, p) <= s.len(),
        forall|j: int| 0 <= j < first_match(s, p) ==> !p(#[trigger] s[j]),
        first_match(s, p) < s.len() ==> p(s[first_match(s, p)]),
    decreases s.len(),
{
    if s.len() > 0 && !p(s[0]) {
        let t = s.drop_first();
        lemma_first_match(t, p);
        assert forall|j: int| 0 <= j < first_match(s, p) implies !p(#[trigger] s[j]) by {
            if j > 0 {
                assert(s[j] == t[j - 1]);
            }
        }
    }
}

pub proof fn lemma_first_match_at(s: Seq<ClipItemView>, p: spec_fn(ClipItemView) -> bool, i: int)
    requires
        0 <= i <= s.len(),
        forall|j: int| 0 <= j < i ==> !p(#[trigger] s[j]),
        i == s.len() || p(s[i]),
    ensures
        first_match(s, p) == i,
    decreases i,
{
    if i > 0 {
        let t = s.drop_first();
        assert forall|j: int| 0 <= j < i - 1 implies !p(#[trigger] t[j]) by {
            assert(t[j] == s[j + 1]);
        }
        lemma_first_match_at(t, p, i - 1);
    }
}

pub proof fn lemma_unpinned_push(s: Seq<ClipItemView>, x: ClipItemView)
    ensures
        unpinned_count(s.push(x)) == unpinned_count(s) + if x.pinned { 0nat } else { 1nat },
{
    s.lemma_filter_push(x, unpinned_pred());
}

pub proof fn lemma_pins_insert(s: Seq<ClipItemView>, x: ClipItemView)
    requires
        pins_first(s),
    ensures
        pins_first(insert_pinned(s, x)),
{
    lemma_lead_pinned(s);
    let r = insert_pinned(s, x);
    if x.pinned {
        assert forall|i: int, j: int| 0 <= i < j < r.len() && #[trigger] r[j].pinned implies #[trigger] r[i].pinned by {
            if i > 0 {
                assert(r[i] == s[i - 1]);
                assert(r[j] == s[j - 1]);
            }
        }
    } else {
        let k = lead_pinned(s) as int;
        assert forall|i: int, j: int| 0 <= i < j < r.len() && #[trigger] r[j].pinned implies #[trigger] r[i].pinned by {
            if j > k {
                assert(r[j] == s[j - 1]);
                if k < s.len() {
                    assert(!s[k].pinned);
                    if j - 1 > k {
                        assert(s[j - 1].pinned ==> s[k].pinned);
                    }
                }
            }
            if i < k {
                assert(r[i] == s[i]);
            }
        }
    }
}

pub proof fn lemma_pins_remove(s: Seq<ClipItemView>, p: int)
    requires
        pins_first(s),
        0 <= p < s.len(),
    ensures
        pins_first(s.remove(p)),
{
    let r = s.remove(p);
    assert forall|i: int, j: int| 0 <= i < j < r.len() && #[trigger] r[j].pinned implies #[trigger] r[i].pinned by {
        let si = if i < p { i } else { i + 1 };
        let sj = if j < p { j } else { j + 1 };
        assert(r[i] == s[si]);
        assert(r[j] == s[sj]);
        assert(s[sj].pinned ==> s[si].pinned);
    }
}

/// Every item that trimming keeps stood in the history before.
pub proof fn lemma_trim_keep_from(s: Seq<ClipItemView>, m: nat)
    ensures
        trim_keep(s, m).len() <= s.len(),
        forall|k: int|
            0 <= k < trim_keep(s, m).len() ==> exists|j: int|
                0 <= j < s.len() && #[trigger] trim_keep(s, m)[k] == s[j],
    decreases s.len(),
{
    if s.len() > 0 {
        let d = s.drop_last();
        lemma_trim_keep_from(d, m);
        let r = trim_keep(d, m);
        assert forall|k: int| 0 <= k < trim_keep(s, m).len() implies exists|j: int|
            0 <= j < s.len() && #[trigger] trim_keep(s, m)[k] == s[j] by {
            if k < r.len() {
                let j = choose|j: int| 0 <= j < d.len() && r[k] == d[j];
                assert(trim_keep(s, m)[k] == s[j]);
            } else {
                assert(trim_keep(s, m)[k] == s[s.len() - 1]);
            }
        }
    }
}

pub proof fn lemma_pins_trim(s: Seq<ClipItemView>, m: nat)
    requires
        pins_first(s),
    ensures
        pins_first(trim_keep(s, m)),
    decreases s.len(),
{
    if s.len() > 0 {
        let d = s.drop_last();
        assert(pins_first(d));
        lemma_pins_trim(d, m);
        lemma_trim_keep_from(d, m);
        let r = trim_keep(d, m);
        let t = trim_keep(s, m);
        if t.len() == r.len() + 1 {
            assert forall|i: int, j: int| 0 <= i < j < t.len() && #[trigger] t[j].pinned implies #[trigger] t[i].pinned by {
                if j == r.len() {
                    assert(t[j] == s[s.len() - 1]);
                    assert(t[i] == r[i]);
                    let q = choose|q: int| 0 <= q < d.len() && r[i] == d[q];
                    assert(s[q] == d[q]);
                    assert(s[s.len() - 1].pinned ==> s[q].pinned);
                } else {
                    assert(t[i] == r[i]);
                    assert(t[j] == r[j]);
                }
            }
        }
    }
}

/// Trimming to `m` leaves `min(unpinned, m)` unpinned items.
pub proof fn law_trim_count(s: Seq<ClipItemView>, m: nat)
    ensures
        unpinned_count(trim_keep(s, m)) == if unpinned_count(s) < m {
            unpinned_count(s)
        } else {
            m
        },
    decreases s.len(),
{
    if s.len() == 0 {
    } else {
        let d = s.drop_last();
        law_trim_count(d, m);
        lemma_unpinned_push(d, s.last());
        assert(d.push(s.last()) =~= s);
        lemma_unpinned_push(trim_keep(d, m), s.last());
    }
}

/// Trimming never evicts a pinned item: the pinned items, in order, are the
/// same before and after.
pub proof fn law_trim_keeps_pinned(s: Seq<ClipItemView>, m: nat)
    ensures
        trim_keep(s, m).filter(pinned_pred()) == s.filter(pinned_pred()),
    decreases s.len(),
{
    if s.len() > 0 {
        let d = s.drop_last();
        law_trim_keeps_pinned(d, m);
        let r = trim_keep(d, m);
        r.lemma_filter_push(s.last(), pinned_pred());
        d.lemma_filter_push(s.last(), pinned_pred());
        assert(d.push(s.last()) =~= s);
    }
}

/// Two text items that hold the same text.
pub open spec fn same_text_item(a: ClipItemView, b: ClipItemView) -> bool {
    a.kind == "text"@ && b.kind == "text"@ && a.text is Some && a.text == b.text
}

/// No two text items hold the same text.
pub open spec fn texts_distinct(s: Seq<ClipItemView>) -> bool {
    forall|i: int, j: int|
        0 <= i < s.len() && 0 <= j < s.len() && i != j ==> !same_text_item(
            #[trigger] s[i],
            #[trigger] s[j],
        )
}

pub proof fn lemma_distinct_remove(s: Seq<ClipItemView>, p: int)
    requires
        texts_distinct(s),
        0 <= p < s.len(),
    ensures
        texts_distinct(s.remove(p)),
{
    let r = s.remove(p);
    assert forall|i: int, j: int|
        0 <= i < r.len() && 0 <= j < r.len() && i != j implies !same_text_item(
        #[trigger] r[i],
        #[trigger] r[j],
    ) by {
        let si = if i < p { i } else { i + 1 };
        let sj = if j < p { j } else { j + 1 };
        assert(r[i] == s[si]);
        assert(r[j] == s[sj]);
    }
}

pub proof fn lemma_distinct_insert(s: Seq<ClipItemView>, x: ClipItemView)
    requires
        texts_distinct(s),
        forall|j: int| 0 <= j < s.len() ==> !same_text_item(x, #[trigger] s[j]),
    ensures
        texts_distinct(insert_pinned(s, x)),
{
    lemma_lead_pinned(s);
    let k: int = if x.pinned { 0 } else { lead_pinned(s) as int };
    let r = insert_pinned(s, x);
    assert(r =~= s.insert(k, x));
    assert forall|i: int, j: int|
        0 <= i < r.len() && 0 <= j < r.len() && i != j implies !same_text_item(
        #[trigger] r[i],
        #[trigger] r[j],
    ) by {
        if i == k {
            let sj = if j < k { j } else { j - 1 };
            assert(r[j] == s[sj]);
        } else if j == k {
            let si = if i < k { i } else { i - 1 };
            assert(r[i] == s[si]);
            assert(!same_text_item(x, s[si]));
        } else {
            let si = if i < k { i } else { i - 1 };
            let sj = if j < k { j } else { j - 1 };
            assert(r[i] == s[si]);
            assert(r[j] == s[sj]);
        }
    }
}

pub proof fn lemma_distinct_trim(s: Seq<ClipItemView>, m: nat)
    requires
        texts_distinct(s),
    ensures
        texts_distinct(trim_keep(s, m)),
    decreases s.len(),
{
    if s.len() > 0 {
        let d = s.drop_last();
        assert(texts_distinct(d)) by {
            assert forall|i: int, j: int|
                0 <= i < d.len() && 0 <= j < d.len() && i != j implies !same_text_item(
                #[trigger] d[i],
                #[trigger] d[j],
            ) by {
                assert(d[i] == s[i] && d[j] == s[j]);
            }
        }
        lemma_distinct_trim(d, m);
        lemma_trim_keep_from(d, m);
        let r = trim_keep(d, m);
        let t = trim_keep(s, m);
        if t.len() == r.len() + 1 {
            let x = s.last();
            assert forall|i: int, j: int|
                0 <= i < t.len() && 0 <= j < t.len() && i != j implies !same_text_item(
                #[trigger] t[i],
                #[trigger] t[j],
            ) by {
                if i == r.len() {
                    assert(t[j] == r[j]);
                    let q = choose|q: int| 0 <= q < d.len() && r[j] == d[q];
                    assert(s[q] == d[q]);
                    assert(t[i] == s[s.len() - 1]);
                } else if j == r.len() {
                    assert(t[i] == r[i]);
                    let q = choose|q: int| 0 <= q < d.len() && r[i] == d[q];
                    assert(s[q] == d[q]);
                    assert(t[j] == s[s.len() - 1]);
                } else {
                    assert(t[i] == r[i] && t[j] == r[j]);
                }
            }
        }
    }
}

pub proof fn lemma_pins_update(s: Seq<ClipItemView>, p: int, y: ClipItemView)
    requires
        pins_first(s),
        0 <= p < s.len(),
        y.pinned == s[p].pinned,
    ensures
        pins_first(s.update(p, y)),
{
    let r = s.update(p, y);
    assert forall|i: int, j: int| 0 <= i < j < r.len() && #[trigger] r[j].pinned implies #[trigger] r[i].pinned by {
        assert(r[i].pinned == s[i].pinned);
        assert(r[j].pinned == s[j].pinned);
    }
}

/// Replacing the item at `p` by one with the same kind and text keeps texts distinct.
pub proof fn lemma_distinct_update(s: Seq<ClipItemView>, p: int, y: ClipItemView)
    requires
        texts_distinct(s),
        0 <= p < s.len(),
        y.kind == s[p].kind,
        y.text == s[p].text,
    ensures
        texts_distinct(s.update(p, y)),
{
    let r = s.update(p, y);
    assert forall|i: int, j: int|
        0 <= i < r.len() && 0 <= j < r.len() && i != j implies !same_text_item(
        #[trigger] r[i],
        #[trigger] r[j],
    ) by {
        assert(same_text_item(r[i], r[j]) == same_text_item(s[i], s[j]));
    }
}

/// Moving the item at `p` (its text kept) keeps texts distinct.
pub proof fn lemma_distinct_move(s: Seq<ClipItemView>, p: int, y: ClipItemView)
    requires
        texts_distinct(s),
        0 <= p < s.len(),
        y.kind == s[p].kind,
        y.text == s[p].text,
    ensures
        texts_distinct(insert_pinned(s.remove(p), y)),
{
    lemma_distinct_remove(s, p);
    let u = s.remove(p);
    assert forall|j: int| 0 <= j < u.len() implies !same_text_item(y, #[trigger] u[j]) by {
        let q = if j < p { j } else { j + 1 };
        assert(u[j] == s[q]);
        assert(!same_text_item(s[p], s[q]));
    }
    lemma_distinct_insert(u, y);
}

/// Every item that a filter keeps stood in the sequence before.
pub proof fn lemma_filter_from(s: Seq<ClipItemView>, f: spec_fn(ClipItemView) -> bool)
    ensures
        forall|k: int|
            0 <= k < s.filter(f).len() ==> exists|j: int| 0 <= j < s.len() && #[trigger] s.filter(f)[k] == s[j],
    decreases s.len(),
{
    reveal(Seq::filter);
    if s.len() > 0 {
        let d = s.drop_last();
        lemma_filter_from(d, f);
        let r = d.filter(f);
        assert forall|k: int| 0 <= k < s.filter(f).len() implies exists|j: int|
            0 <= j < s.len() && #[trigger] s.filter(f)[k] == s[j] by {
            if k < r.len() {
                let j = choose|j: int| 0 <= j < d.len() && r[k] == d[j];
                assert(s.filter(f)[k] == s[j]);
            } else {
                assert(s.filter(f)[k] == s[s.len() - 1]);
            }
        }
    }
}

pub proof fn lemma_distinct_filter(s: Seq<ClipItemView>, f: spec_fn(ClipItemView) -> bool)
    requires
        texts_distinct(s),
    ensures
        texts_distinct(s.filter(f)),
    decreases s.len(),
{
    reveal(Seq::filter);
    if s.len() > 0 {
        let d = s.drop_last();
        assert(texts_distinct(d)) by {
            assert forall|i: int, j: int|
                0 <= i < d.len() && 0 <= j < d.len() && i != j implies !same_text_item(
                #[trigger] d[i],
                #[trigger] d[j],
            ) by {
                assert(d[i] == s[i] && d[j] == s[j]);
            }
        }
        lemma_distinct_filter(d, f);
        lemma_filter_from(d, f);
        let r = d.filter(f);
        let t = s.filter(f);
        if f(s.last()) {
            assert forall|i: int, j: int|
                0 <= i < t.len() && 0 <= j < t.len() && i != j implies !same_text_item(
                #[trigger] t[i],
                #[trigger] t[j],
            ) by {
                if i == r.len() {
                    assert(t[j] == r[j]);
                    let q = choose|q: int| 0 <= q < d.len() && r[j] == d[q];
                    assert(s[q] == d[q]);
                    assert(t[i] == s[s.len() - 1]);
                } else if j == r.len() {
                    assert(t[i] == r[i]);
                    let q = choose|q: int| 0 <= q < d.len() && r[i] == d[q];
                    assert(s[q] == d[q]);
                    assert(t[j] == s[s.len() - 1]);
                } else {
                    assert(t[i] == r[i] && t[j] == r[j]);
                }
            }
        }
    }
}

// ---------------------------------------------------------------------------
// The store
// ---------------------------------------------------------------------------

/// The history and the settings, kept in the data directory `dir`.
pub struct Store {
    pub items: Vec<ClipItem>,
    pub settings: Settings,
    pub dir: String,
}

/// What adding a text did.
pub enum AddResult {
    /// The text was blank: nothing changed.
    Ignored,
    /// The text was already in the history: that item was stamped anew.
    Refreshed,
    /// A new item was added; these items were trimmed off the end.
    Added(Vec<ClipItem>),
}

impl AddResult {
    /// Whether a new item was added.
    pub fn is_new(&self) -> (r: bool)
        ensures
            r == (self is Added),
    {
        match self {
            AddResult::Added(_) => true,
            _ => false,
        }
    }
}

/// What the first step of adding an image did.
pub enum ImageStep {
    /// No bytes: nothing changed.
    Ignored,
    /// The image was already in the history: that item was stamped anew and
    /// moved up.
    Refreshed,
    /// The image is new: its bytes are to be written to this path, then
    /// `commit_image` adds the item.
    Write(String),
}

impl Store {
    /// The history, as item views.
    pub open spec fn history(&self) -> Seq<ClipItemView> {
        views(self.items@)
    }

    /// The data directory.
    pub open spec fn data_dir(&self) -> Seq<char> {
        self.dir@
    }

    /// The number of unpinned items the history keeps.
    pub open spec fn limit(&self) -> nat {
        history_limit(self.settings.max_history)
    }

    /// A store for `dir` from what was read there: missing or unreadable
    /// settings are the defaults, a missing history is empty.
    pub fn load(dir: String, settings: Option<Settings>, items: Option<Vec<ClipItem>>) -> (r: Store)
        ensures
            r.data_dir() == dir@,
            match settings {
                Some(s) => r.settings == s,
                None => r.settings.max_history == 100 && r.settings.auto_paste
                    && r.settings.theme@ == "system"@ && r.settings.poll_ms == 700
                    && !r.settings.launch_on_login && r.settings.data_dir@.len() == 0,
            },
            match items {
                Some(v) => r.items@ == v@,
                None => r.items@.len() == 0,
            },
    {
        let settings = match settings {
            Some(s) => s,
            None => Settings::default(),
        };
        let items = match items {
            Some(v) => v,
            None => Vec::new(),
        };
        Store { items, settings, dir }
    }

    /// The data directory.
    pub fn dir(&self) -> (r: &String)
        ensures
            r@ == self.data_dir(),
    {
        &self.dir
    }

    /// The directory that holds the image files: `images` under the data directory.
    pub fn images_dir(&self) -> (r: String)
        ensures
            r@ == join_spec(self.data_dir(), "images"@),
    {
        join(self.dir.as_str(), "images")
    }

    /// Puts `item` at the front if it is pinned, else right after the pinned
    /// items, so that pinned items stay on top.
    pub fn insert_respecting_pins(&mut self, item: ClipItem)
        ensures
            final(self).history() == insert_pinned(old(self).history(), item@),
            final(self).settings == old(self).settings,
            final(self).dir == old(self).dir,
            pins_first(old(self).history()) ==> pins_first(final(self).history()),
    {
        let ghost s = self.history();
        proof {
            if pins_first(s) {
                lemma_pins_insert(s, item@);
            }
        }
        if item.pinned {
            self.items.insert(0, item);
            assert(self.history() =~= seq![item@] + s);
            return;
        }
        let n = self.items.len();
        let mut i: usize = 0;
        while i < n && self.items[i].pinned
            invariant
                0 <= i <= n == self.items.len(),
                s == self.history(),
                forall|j: int| 0 <= j < i ==> #[trigger] s[j].pinned,
            decreases n - i,
        {
            assert(s[i as int] == self.items@[i as int]@);
            i += 1;
        }
        proof {
            if i < n {
                assert(s[i as int] == self.items@[i as int]@);
            }
            lemma_lead_pinned_at(s, i as int);
        }
        self.items.insert(i, item);
        assert(self.history() =~= s.insert(i as int, item@));
    }

    /// Drops the unpinned items beyond the limit, oldest (last) first, and
    /// returns them.
    fn trim(&mut self) -> (evicted: Vec<ClipItem>)
        ensures
            final(self).history() == trim_keep(old(self).history(), old(self).limit()),
            views(evicted@) == trim_drop(old(self).history(), old(self).limit()),
            final(self).settings == old(self).settings,
            final(self).dir == old(self).dir,
    {
        let max: usize = if self.settings.max_history == 0 {
            1
        } else {
            self.settings.max_history
        };
        let ghost m = self.limit();
        let ghost s0 = self.history();
        let ghost settings0 = self.settings;
        let ghost dir0 = self.dir;
        let mut evicted: Vec<ClipItem> = Vec::new();
        let mut i: usize = 0;
        let mut seen: usize = 0;
        let ghost mut c: int = 0;
        proof {
            assert(s0.take(0) =~= Seq::<ClipItemView>::empty());
            assert(s0.skip(0) =~= s0);
            assert(self.history() =~= trim_keep(s0.take(0), m) + s0.skip(0));
            assert(views(evicted@) =~= Seq::<ClipItemView>::empty());
        }
        while i < self.items.len()
            invariant
                max == m,
                0 <= c <= s0.len(),
                self.history() == trim_keep(s0.take(c), m) + s0.skip(c),
                i == trim_keep(s0.take(c), m).len(),
                views(evicted@) == trim_drop(s0.take(c), m),
                seen == if unpinned_count(s0.take(c)) < m {
                    unpinned_count(s0.take(c))
                } else {
                    m
                },
                self.settings == settings0,
                self.dir == dir0,
            decreases self.items.len() - i,
        {
            let ghost pre = s0.take(c);
            let ghost post = s0.take(c + 1);
            proof {
                assert(self.history().len() == self.items@.len());
                assert(c < s0.len());
                assert(post.drop_last() =~= pre);
                assert(post.last() == s0[c]);
                assert(self.history()[i as int] == s0[c]);
                assert(self.items@[i as int]@ == s0[c]);
                lemma_unpinned_push(pre, s0[c]);
                assert(pre.push(s0[c]) =~= post);
                assert(s0.skip(c).drop_first() =~= s0.skip(c + 1));
            }
            if self.items[i].pinned || seen < max {
                if !self.items[i].pinned {
                    seen += 1;
                }
                i += 1;
                proof {
                    c = c + 1;
                    assert(self.history() =~= trim_keep(s0.take(c), m) + s0.skip(c));
                }
            } else {
                let ghost h = self.history();
                let x = self.items.remove(i);
                evicted.push(x);
                proof {
                    assert(self.history() =~= h.remove(i as int));
                    assert(trim_keep(post, m) == trim_keep(pre, m));
                    c = c + 1;
                    assert(self.history() =~= trim_keep(s0.take(c), m) + s0.skip(c));
                    assert(views(evicted@) =~= trim_drop(s0.take(c), m));
                }
            }
        }
        proof {
            assert(self.history().len() == self.items@.len());
            assert(c == s0.len());
            assert(s0.take(c) =~= s0);
            assert(self.history() =~= trim_keep(s0, m));
        }
        evicted
    }

    /// The position of the first item with this id, or the length.
    fn position_id(&self, id: &str) -> (r: usize)
        ensures
            r == first_match(self.history(), has_id(id@)),
    {
        let ghost h = self.history();
        let n = self.items.len();
        let mut i: usize = 0;
        while i < n
            invariant
                n == self.items.len(),
                h == self.history(),
                0 <= i <= n,
                forall|j: int| 0 <= j < i ==> !has_id(id@)(#[trigger] h[j]),
            decreases n - i,
        {
            assert(h[i as int] == self.items@[i as int]@);
            if same_text(self.items[i].id.as_str(), id) {
                proof {
                    lemma_first_match_at(h, has_id(id@), i as int);
                }
                return i;
            }
            i += 1;
        }
        proof {
            lemma_first_match_at(h, has_id(id@), n as int);
        }
        n
    }

    /// The position of the first text item holding `text`, or the length.
    fn position_text(&self, text: &String) -> (r: usize)
        ensures
            r == first_match(self.history(), holds_text(text@)),
    {
        let ghost h = self.history();
        let kind = owned("text");
        let n = self.items.len();
        let mut i: usize = 0;
        while i < n
            invariant
                n == self.items.len(),
                h == self.history(),
                kind@ == "text"@,
                0 <= i <= n,
                forall|j: int| 0 <= j < i ==> !holds_text(text@)(#[trigger] h[j]),
            decreases n - i,
        {
            assert(h[i as int] == self.items@[i as int]@);
            let item = &self.items[i];
            let hit = item.kind == kind && match &item.text {
                Some(t) => *t == *text,
                None => false,
            };
            if hit {
                proof {
                    lemma_first_match_at(h, holds_text(text@), i as int);
                }
                return i;
            }
            i += 1;
        }
        proof {
            lemma_first_match_at(h, holds_text(text@), n as int);
        }
        n
    }

    /// The position of the first image item whose file name contains `sig`, or the length.
    fn position_image(&self, sig: &Vec<char>) -> (r: usize)
        ensures
            r == first_match(self.history(), holds_image(sig@)),
    {
        let ghost h = self.history();
        let kind = owned("image");
        let n = self.items.len();
        let mut i: usize = 0;
        while i < n
            invariant
                n == self.items.len(),
                h == self.history(),
                kind@ == "image"@,
                0 <= i <= n,
                forall|j: int| 0 <= j < i ==> !holds_image(sig@)(#[trigger] h[j]),
            decreases n - i,
        {
            assert(h[i as int] == self.items@[i as int]@);
            let item = &self.items[i];
            let hit = item.kind == kind && match &item.image_path {
                Some(p) => match file_name(p.as_str()) {
                    Some(f) => {
                        let fc = chars_of(f.as_str());
                        contains_chars(&fc, sig)
                    },
                    None => false,
                },
                None => false,
            };
            if hit {
                proof {
                    lemma_first_match_at(h, holds_image(sig@), i as int);
                }
                return i;
            }
            i += 1;
        }
        proof {
            lemma_first_match_at(h, holds_image(sig@), n as int);
        }
        n
    }

    /// Stamps the item at `pos` with `now` and puts it back where an item of its
    /// kind of pin goes: a pinned one to the front, an unpinned one right after
    /// the pinned items.
    fn move_up(&mut self, pos: usize, now: u64)
        requires
            pos < old(self).items.len(),
        ensures
            final(self).history() == moved_up(old(self).history(), pos as int, now),
            final(self).settings == old(self).settings,
            final(self).dir == old(self).dir,
            pins_first(old(self).history()) ==> pins_first(final(self).history()),
            texts_distinct(old(self).history()) ==> texts_distinct(final(self).history()),
    {
        let ghost h = self.history();
        let mut existing = self.items.remove(pos);
        assert(self.history() =~= h.remove(pos as int));
        assert(h[pos as int] == old(self).items@[pos as int]@);
        existing.timestamp = now;
        assert(existing@ == ClipItemView { timestamp: now, ..h[pos as int] });
        proof {
            if pins_first(h) {
                lemma_pins_remove(h, pos as int);
            }
            if texts_distinct(h) {
                lemma_distinct_move(h, pos as int, existing@);
            }
        }
        self.insert_respecting_pins(existing);
    }

    /// Stamps the item at `pos` with `now`; a pinned item keeps its place, an
    /// unpinned one moves up to right after the pinned items.
    fn refresh(&mut self, pos: usize, now: u64)
        requires
            pos < old(self).items.len(),
        ensures
            final(self).history() == refreshed(old(self).history(), pos as int, now),
            final(self).settings == old(self).settings,
            final(self).dir == old(self).dir,
            pins_first(old(self).history()) ==> pins_first(final(self).history()),
            texts_distinct(old(self).history()) ==> texts_distinct(final(self).history()),
    {
        if !self.items[pos].pinned {
            self.move_up(pos, now);
            return;
        }
        let ghost h = self.history();
        let mut existing = self.items.remove(pos);
        assert(self.history() =~= h.remove(pos as int));
        assert(h[pos as int] == old(self).items@[pos as int]@);
        existing.timestamp = now;
        assert(existing@ == ClipItemView { timestamp: now, ..h[pos as int] });
        self.items.insert(pos, existing);
        proof {
            assert(self.history() =~= h.update(pos as int, existing@));
            if pins_first(h) {
                lemma_pins_update(h, pos as int, existing@);
            }
            if texts_distinct(h) {
                lemma_distinct_update(h, pos as int, existing@);
            }
        }
    }

    /// Adds a text clip copied at time `now`, under the new id `id`.
    ///
    /// A blank text is ignored. A text already in the history gets the new time:
    /// a pinned item keeps its place, an unpinned one moves up to right after the
    /// pinned ones. Anything else becomes a new unpinned item right after the pinned
    /// ones, and the history is trimmed; the trimmed items are returned.
    pub fn add_text(&mut self, text: String, now: u64, id: String) -> (r: AddResult)
        ensures
            final(self).settings == old(self).settings,
            final(self).dir == old(self).dir,
            is_blank_spec(text@) ==> r is Ignored && final(self).history() == old(self).history(),
            !is_blank_spec(text@) && first_match(old(self).history(), holds_text(text@))
                < old(self).history().len() ==> r is Refreshed && final(self).history()
                == refreshed(
                old(self).history(),
                first_match(old(self).history(), holds_text(text@)),
                now,
            ),
            !is_blank_spec(text@) && first_match(old(self).history(), holds_text(text@))
                == old(self).history().len() ==> r is Added && final(self).history()
                == text_added(old(self).history(), text@, now, id@, old(self).limit()),
            r matches AddResult::Added(ev) ==> views(ev@) == text_evicted(
                old(self).history(),
                text@,
                now,
                id@,
                old(self).limit(),
            ),
            r is Added ==> unpinned_count(final(self).history()) <= old(self).limit(),
            pins_first(old(self).history()) ==> pins_first(final(self).history()),
            texts_distinct(old(self).history()) ==> texts_distinct(final(self).history()),
    {
        let ghost h = self.history();
        if is_blank(text.as_str()) {
            return AddResult::Ignored;
        }
        let pos = self.position_text(&text);
        proof {
            lemma_first_match(h, holds_text(text@));
        }
        if pos < self.items.len() {
            self.refresh(pos, now);
            return AddResult::Refreshed;
        }
        let preview = text_preview(&text);
        let item = ClipItem {
            id,
            kind: owned("text"),
            text: Some(text),
            image_path: None,
            preview,
            pinned: false,
            timestamp: now,
        };
        proof {
            if pins_first(h) {
                lemma_pins_insert(h, item@);
                lemma_pins_trim(insert_pinned(h, item@), self.limit());
            }
            if texts_distinct(h) {
                assert forall|j: int| 0 <= j < h.len() implies !same_text_item(
                    item@,
                    #[trigger] h[j],
                ) by {
                    assert(!holds_text(text@)(h[j]));
                }
                lemma_distinct_insert(h, item@);
                lemma_distinct_trim(insert_pinned(h, item@), self.limit());
            }
            law_trim_count(insert_pinned(h, item@), self.limit());
        }
        self.insert_respecting_pins(item);
        let evicted = self.trim();
        AddResult::Added(evicted)
    }

    /// First step of adding an image clip copied at time `now`.
    ///
    /// No bytes: ignored. An image whose signature (the hexadecimal FNV-1a hash
    /// of its bytes) already occurs in the file name of an image item: that item
    /// gets the new time and moves up, to the very front when pinned, else to
    /// right after the pinned ones. Otherwise the path to write the bytes to is
    /// returned, in the images directory, named after the time and the signature.
    pub fn add_image(&mut self, bytes: &[u8], now: u64) -> (r: ImageStep)
        ensures
            final(self).settings == old(self).settings,
            final(self).dir == old(self).dir,
            bytes@.len() == 0 ==> r is Ignored && final(self).history() == old(self).history(),
            bytes@.len() > 0 && first_match(old(self).history(), holds_image(image_sig(bytes@)))
                < old(self).history().len() ==> r is Refreshed && final(self).history()
                == moved_up(
                old(self).history(),
                first_match(old(self).history(), holds_image(image_sig(bytes@))),
                now,
            ),
            bytes@.len() > 0 && first_match(old(self).history(), holds_image(image_sig(bytes@)))
                == old(self).history().len() ==> r is Write && final(self).history() == old(
                self,
            ).history(),
            r matches ImageStep::Write(p) ==> p@ == join_spec(
                join_spec(old(self).data_dir(), "images"@),
                image_file_name(now, image_sig(bytes@)),
            ) && file_name_spec(p@) == Some(image_file_name(now, image_sig(bytes@)))
                && contains_spec(image_file_name(now, image_sig(bytes@)), image_sig(bytes@)),
            pins_first(old(self).history()) ==> pins_first(final(self).history()),
            texts_distinct(old(self).history()) ==> texts_distinct(final(self).history()),
    {
        let ghost h = self.history();
        if bytes.len() == 0 {
            return ImageStep::Ignored;
        }
        let sig = simple_hash(bytes);
        let sigc = chars_of(sig.as_str());
        let pos = self.position_image(&sigc);
        proof {
            lemma_first_match(h, holds_image(sig@));
        }
        if pos < self.items.len() {
            self.move_up(pos, now);
            return ImageStep::Refreshed;
        }
        let mut name = owned("img_");
        let stamp = dec_string(now as u128);
        push_str(&mut name, stamp.as_str());
        push_str(&mut name, "_");
        push_str(&mut name, sig.as_str());
        push_str(&mut name, ".png");
        let dir = self.images_dir();
        let path = join(dir.as_str(), name.as_str());
        proof {
            lemma_image_name(now, fnv1a(bytes@) as nat);
            lemma_join_file_name(dir@, image_file_name(now, sig@));
        }
        ImageStep::Write(path)
    }

    /// Second step of adding an image: once its `size` bytes are written to
    /// `path`, adds the new unpinned image item right after the pinned ones and
    /// trims the history; returns the trimmed items.
    pub fn commit_image(&mut self, path: String, size: usize, now: u64, id: String) -> (evicted:
        Vec<ClipItem>)
        ensures
            final(self).settings == old(self).settings,
            final(self).dir == old(self).dir,
            final(self).history() == trim_keep(
                insert_pinned(old(self).history(), image_item(path@, size, now, id@)),
                old(self).limit(),
            ),
            views(evicted@) == trim_drop(
                insert_pinned(old(self).history(), image_item(path@, size, now, id@)),
                old(self).limit(),
            ),
            unpinned_count(final(self).history()) <= old(self).limit(),
            pins_first(old(self).history()) ==> pins_first(final(self).history()),
            texts_distinct(old(self).history()) ==> texts_distinct(final(self).history()),
    {
        let ghost h = self.history();
        let preview = image_preview_text(size);
        let item = ClipItem {
            id,
            kind: owned("image"),
            text: None,
            image_path: Some(path),
            preview,
            pinned: false,
            timestamp: now,
        };
        proof {
            if pins_first(h) {
                lemma_pins_insert(h, item@);
                lemma_pins_trim(insert_pinned(h, item@), self.limit());
            }
            if texts_distinct(h) {
                reveal_strlit("image");
                reveal_strlit("text");
                assert(item@.kind != "text"@) by {
                    assert(item@.kind[0] != "text"@[0]);
                }
                lemma_distinct_insert(h, item@);
                lemma_distinct_trim(insert_pinned(h, item@), self.limit());
            }
            law_trim_count(insert_pinned(h, item@), self.limit());
        }
        self.insert_respecting_pins(item);
        self.trim()
    }

    /// The first item with this id.
    pub fn find(&self, id: &str) -> (r: Option<&ClipItem>)
        ensures
            match r {
                Some(it) => first_match(self.history(), has_id(id@)) < self.history().len()
                    && it@ == self.history()[first_match(self.history(), has_id(id@))],
                None => first_match(self.history(), has_id(id@)) == self.history().len(),
            },
    {
        let pos = self.position_id(id);
        proof {
            lemma_first_match(self.history(), has_id(id@));
        }
        assert(self.history().len() == self.items@.len());
        if pos < self.items.len() {
            assert(self.items@[pos as int]@ == self.history()[pos as int]);
            Some(&self.items[pos])
        } else {
            None
        }
    }

    /// Flips the pin of the first item with this id and moves it as a new item
    /// would go (a pinned item to the front, an unpinned one right after the
    /// pinned ones). Returns whether there was such an item.
    pub fn toggle_pin(&mut self, id: &str) -> (found: bool)
        ensures
            final(self).settings == old(self).settings,
            final(self).dir == old(self).dir,
            found == (first_match(old(self).history(), has_id(id@)) < old(self).history().len()),
            found ==> final(self).history() == toggled(
                old(self).history(),
                first_match(old(self).history(), has_id(id@)),
            ),
            !found ==> final(self).history() == old(self).history(),
            pins_first(old(self).history()) ==> pins_first(final(self).history()),
            texts_distinct(old(self).history()) ==> texts_distinct(final(self).history()),
    {
        let ghost h = self.history();
        let pos = self.position_id(id);
        if pos < self.items.len() {
            let mut item = self.items.remove(pos);
            assert(self.history() =~= h.remove(pos as int));
            assert(h[pos as int] == old(self).items@[pos as int]@);
            item.pinned = !item.pinned;
            assert(item@ == ClipItemView { pinned: !h[pos as int].pinned, ..h[pos as int] });
            proof {
                if pins_first(h) {
                    lemma_pins_remove(h, pos as int);
                    lemma_pins_insert(h.remove(pos as int), item@);
                }
                if texts_distinct(h) {
                    lemma_distinct_move(h, pos as int, item@);
                }
            }
            self.insert_respecting_pins(item);
            true
        } else {
            false
        }
    }

    /// Removes the first item with this id and returns it (its image file is
    /// then to be removed).
    pub fn delete(&mut self, id: &str) -> (r: Option<ClipItem>)
        ensures
            final(self).settings == old(self).settings,
            final(self).dir == old(self).dir,
            match r {
                Some(it) => first_match(old(self).history(), has_id(id@)) < old(
                    self,
                ).history().len() && it@ == old(self).history()[first_match(
                    old(self).history(),
                    has_id(id@),
                )] && final(self).history() == old(self).history().remove(
                    first_match(old(self).history(), has_id(id@)),
                ),
                None => first_match(old(self).history(), has_id(id@)) == old(
                    self,
                ).history().len() && final(self).history() == old(self).history(),
            },
            pins_first(old(self).history()) ==> pins_first(final(self).history()),
            texts_distinct(old(self).history()) ==> texts_distinct(final(self).history()),
    {
        let ghost h = self.history();
        let pos = self.position_id(id);
        proof {
            lemma_first_match(h, has_id(id@));
        }
        assert(h.len() == self.items@.len());
        if pos < self.items.len() {
            let removed = self.items.remove(pos);
            assert(self.history() =~= h.remove(pos as int));
            assert(h[pos as int] == old(self).items@[pos as int]@);
            proof {
                if pins_first(h) {
                    lemma_pins_remove(h, pos as int);
                }
                if texts_distinct(h) {
                    lemma_distinct_remove(h, pos as int);
                }
            }
            Some(removed)
        } else {
            None
        }
    }

    /// Empties the history, or keeps only the pinned items when `keep_pinned`
    /// holds; returns the removed items (their image files are then to be removed).
    pub fn clear(&mut self, keep_pinned: bool) -> (removed: Vec<ClipItem>)
        ensures
            final(self).settings == old(self).settings,
            final(self).dir == old(self).dir,
            keep_pinned ==> final(self).history() == old(self).history().filter(pinned_pred())
                && views(removed@) == old(self).history().filter(unpinned_pred()),
            !keep_pinned ==> final(self).history().len() == 0 && views(removed@) == old(
                self,
            ).history(),
            pins_first(final(self).history()),
            texts_distinct(old(self).history()) ==> texts_distinct(final(self).history()),
    {
        if !keep_pinned {
            let mut removed: Vec<ClipItem> = Vec::new();
            std::mem::swap(&mut self.items, &mut removed);
            return removed;
        }
        let ghost s0 = self.history();
        let ghost settings0 = self.settings;
        let ghost dir0 = self.dir;
        let mut removed: Vec<ClipItem> = Vec::new();
        let mut i: usize = 0;
        let ghost mut c: int = 0;
        proof {
            reveal(Seq::filter);
            assert(s0.take(0) =~= Seq::<ClipItemView>::empty());
            assert(s0.skip(0) =~= s0);
            assert(self.history() =~= s0.take(0).filter(pinned_pred()) + s0.skip(0));
            assert(views(removed@) =~= s0.take(0).filter(unpinned_pred()));
        }
        while i < self.items.len()
            invariant
                0 <= c <= s0.len(),
                self.history() == s0.take(c).filter(pinned_pred()) + s0.skip(c),
                i == s0.take(c).filter(pinned_pred()).len(),
                views(removed@) == s0.take(c).filter(unpinned_pred()),
                self.settings == settings0,
                self.dir == dir0,
            decreases self.items.len() - i,
        {
            let ghost pre = s0.take(c);
            let ghost post = s0.take(c + 1);
            let ghost h = self.history();
            proof {
                assert(self.history().len() == self.items@.len());
                assert(c < s0.len());
                assert(pre.push(s0[c]) =~= post);
                pre.lemma_filter_push(s0[c], pinned_pred());
                pre.lemma_filter_push(s0[c], unpinned_pred());
                assert(self.history()[i as int] == s0[c]);
                assert(self.items@[i as int]@ == s0[c]);
                assert(s0.skip(c).drop_first() =~= s0.skip(c + 1));
            }
            if self.items[i].pinned {
                i += 1;
                proof {
                    c = c + 1;
                    assert(self.history() =~= s0.take(c).filter(pinned_pred()) + s0.skip(c));
                }
            } else {
                let x = self.items.remove(i);
                removed.push(x);
                proof {
                    assert(self.history() =~= h.remove(i as int));
                    c = c + 1;
                    assert(self.history() =~= s0.take(c).filter(pinned_pred()) + s0.skip(c));
                    assert(views(removed@) =~= s0.take(c).filter(unpinned_pred()));
                }
            }
        }
        proof {
            assert(self.history().len() == self.items@.len());
            assert(c == s0.len());
            assert(s0.take(c) =~= s0);
            assert(self.history() =~= s0.filter(pinned_pred()));
            s0.lemma_filter_len(pinned_pred());
            if texts_distinct(s0) {
                lemma_distinct_filter(s0, pinned_pred());
            }
            assert forall|i: int| 0 <= i < self.history().len() implies #[trigger] self.history()[i].pinned by {
                s0.lemma_filter_pred(pinned_pred(), i);
            }
        }
        removed
    }
}

/// The first 160 characters of a text, for display.
fn text_preview(t: &String) -> (r: String)
    ensures
        r@ == preview_of(t@),
{
    let cs = chars_of(t.as_str());
    let k: usize = if cs.len() <= 160 {
        cs.len()
    } else {
        160
    };
    let p = slice_chars(&cs, 0, k);
    assert(cs@.subrange(0, cs@.len() as int) =~= cs@);
    string_of(&p)
}

/// The preview line of an image of `size` bytes.
fn image_preview_text(size: usize) -> (r: String)
    ensures
        r@ == image_preview(size),
{
    let mut r = owned("Image \u{b7} ");
    if size >= 1024 {
        let d = dec_string((size / 1024) as u128);
        push_str(&mut r, d.as_str());
        push_str(&mut r, " KB");
    } else {
        let d = dec_string(size as u128);
        push_str(&mut r, d.as_str());
        push_str(&mut r, " B");
    }
    r
}

/// The FNV-1a hash of some bytes, in hexadecimal: the signature by which
/// images are told apart.
pub fn simple_hash(bytes: &[u8]) -> (r: String)
    ensures
        r@ == image_sig(bytes@),
{
    let mut hash: u64 = 0xcbf29ce484222325;
    let n = bytes.len();
    for i in 0..n
        invariant
            n == bytes@.len(),
            hash == fnv1a(bytes@.take(i as int)),
    {
        proof {
            assert(bytes@.take(i + 1).drop_last() =~= bytes@.take(i as int));
            assert(bytes@.take(i + 1).last() == bytes@[i as int]);
        }
        hash = (hash ^ (bytes[i] as u64)).wrapping_mul(0x100000001b3);
    }
    assert(bytes@.take(n as int) =~= bytes@);
    hex_string(hash as u128)
}

/// A new item id: the hexadecimal count of nanoseconds since the epoch.
pub fn gen_id(nanos: u128) -> (r: String)
    ensures
        r@ == hex_spec(nanos as nat),
{
    hex_string(nanos)
}

/// The file name of a new image is a plain name that contains its signature.
pub proof fn lemma_image_name(now: u64, n: nat)
    ensures
        plain_name(image_file_name(now, hex_spec(n))),
        contains_spec(image_file_name(now, hex_spec(n)), hex_spec(n)),
{
    reveal_strlit("img_");
    reveal_strlit("_");
    reveal_strlit(".png");
    let sig = hex_spec(n);
    let d = dec_spec(now as nat);
    let name = image_file_name(now, sig);
    lemma_dec_not_slash(now as nat);
    lemma_hex_not_slash(n);
    let off: int = 4int + d.len() + 1;
    assert(name.subrange(off, off + sig.len()) =~= sig);
    assert(occurs_at(name, sig, off));
    assert forall|i: int| 0 <= i < name.len() implies #[trigger] name[i] != '/' by {
        if 4 <= i < 4 + d.len() {
            assert(name[i] == d[i - 4]);
        } else if off <= i < off + sig.len() {
            assert(name[i] == sig[i - off]);
        }
    }
    assert(name.len() > 2);
}

/// Decimal digits hold no `/`.
pub proof fn lemma_dec_not_slash(n: nat)
    ensures
        forall|i: int| 0 <= i < dec_spec(n).len() ==> #[trigger] dec_spec(n)[i] != '/',
    decreases n,
{
    lemma_digit_not_slash(n % 10);
    if n >= 10 {
        lemma_dec_not_slash(n / 10);
    }
    assert forall|i: int| 0 <= i < dec_spec(n).len() implies #[trigger] dec_spec(n)[i] != '/' by {
        if n >= 10 && i < dec_spec(n).len() - 1 {
            assert(dec_spec(n)[i] == dec_spec(n / 10)[i]);
        }
    }
}

/// Hexadecimal digits hold no `/`.
pub proof fn lemma_hex_not_slash(n: nat)
    ensures
        forall|i: int| 0 <= i < hex_spec(n).len() ==> #[trigger] hex_spec(n)[i] != '/',
    decreases n,
{
    lemma_digit_not_slash(n % 16);
    if n >= 16 {
        lemma_hex_not_slash(n / 16);
    }
    assert forall|i: int| 0 <= i < hex_spec(n).len() implies #[trigger] hex_spec(n)[i] != '/' by {
        if n >= 16 && i < hex_spec(n).len() - 1 {
            assert(hex_spec(n)[i] == hex_spec(n / 16)[i]);
        }
    }
}

proof fn lemma_digit_not_slash(d: nat)
    requires
        d < 16,
    ensures
        digit_spec(d) != '/',
{
    let t = seq!['0', '1', '2', '3', '4', '5', '6', '7', '8', '9', 'a', 'b', 'c', 'd', 'e', 'f'];
    assert(digit_spec(d) == t[d as int]);
    assert(forall|k: int| 0 <= k < 16 ==> #[trigger] t[k] != '/');
}

/// The items with their image files moved to `images_dst`: each image path
/// becomes the same file name under `images_dst`.
pub fn relocate_image_paths(items: Vec<ClipItem>, images_dst: &str) -> (r: Vec<ClipItem>)
    ensures
        views(r@) == views(items@).map_values(|v: ClipItemView| relocated(v, images_dst@)),
{
    let ghost orig = views(items@);
    let mut rest = items;
    let mut out: Vec<ClipItem> = Vec::new();
    let ghost mut k: int = 0;
    proof {
        assert(views(rest@) =~= orig.skip(0));
    }
    while rest.len() > 0
        invariant
            0 <= k <= orig.len(),
            views(rest@) == orig.skip(k),
            views(out@) == orig.take(k).map_values(|v: ClipItemView| relocated(v, images_dst@)),
        decreases rest.len(),
    {
        let ghost before = rest@;
        proof {
            assert(views(before).len() == before.len());
            assert(views(before)[0] == before[0]@);
            assert(orig.skip(k)[0] == orig[k]);
        }
        let mut item = rest.remove(0);
        proof {
            assert(rest@ == before.remove(0));
            assert(views(rest@) =~= views(before).drop_first());
            assert(orig.skip(k).drop_first() =~= orig.skip(k + 1));
            assert(views(rest@) =~= orig.skip(k + 1));
            assert(item@ == orig[k]);
        }
        let ghost v0 = item@;
        let new_path = match &item.image_path {
            Some(p) => match file_name(p.as_str()) {
                Some(f) => Some(join(images_dst, f.as_str())),
                None => None,
            },
            None => None,
        };
        match new_path {
            Some(np) => {
                item.image_path = Some(np);
            },
            None => {},
        }
        assert(item@ == relocated(v0, images_dst@));
        let ghost out0 = views(out@);
        out.push(item);
        proof {
            assert(views(out@) =~= out0.push(relocated(v0, images_dst@)));
            assert(orig.take(k + 1) =~= orig.take(k).push(orig[k]));
            assert(views(out@) =~= orig.take(k + 1).map_values(
                |v: ClipItemView| relocated(v, images_dst@),
            ));
            k = k + 1;
        }
    }
    proof {
        assert(orig.skip(k).len() == 0);
        assert(orig.take(k) =~= orig);
    }
    out
}

} // verus!
