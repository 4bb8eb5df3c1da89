//! What holds of the history across operations.
use vstd::prelude::*;
use crate::store::{
    first_match, has_id, holds_image, holds_text, image_item, insert_pinned, lead_pinned,
    lemma_first_match, lemma_lead_pinned, refreshed, relocated, text_added, text_item, toggled,
    trim_keep, trim_drop, unpinned_count, unpinned_pred, lemma_unpinned_push, history_limit,
    text_evicted, fnv1a, image_sig, ClipItemView, Store,
};
use crate::text::{digit_spec, hex_spec};
use crate::path::{file_name_spec, join_spec, law_join_keeps_file_name};

verus! {

/// At most one item has this id.
pub open spec fn id_unique(s: Seq<ClipItemView>, id: Seq<char>) -> bool {
    forall|i: int, j: int|
        0 <= i < s.len() && 0 <= j < s.len() && (#[trigger] s[i]).id == id && (#[trigger] s[j]).id
            == id ==> i == j
}

/// Where `insert_pinned` puts `x`.
pub open spec fn insert_pos(s: Seq<ClipItemView>, x: ClipItemView) -> int {
    if x.pinned {
        0
    } else {
        lead_pinned(s) as int
    }
}

pub proof fn lemma_insert_pos(s: Seq<ClipItemView>, x: ClipItemView)
    ensures
        0 <= insert_pos(s, x) <= s.len(),
        insert_pinned(s, x) == s.insert(insert_pos(s, x), x),
        insert_pinned(s, x)[insert_pos(s, x)] == x,
        insert_pinned(s, x).remove(insert_pos(s, x)) == s,
{
    lemma_lead_pinned(s);
    let k = insert_pos(s, x);
    assert(insert_pinned(s, x) =~= s.insert(k, x));
    assert(s.insert(k, x).remove(k) =~= s);
}

pub proof fn lemma_found(s: Seq<ClipItemView>, p: spec_fn(ClipItemView) -> bool, j: int)
    requires
        0 <= j < s.len(),
        p(s[j]),
    ensures
        first_match(s, p) <= j,
{
    lemma_first_match(s, p);
}

/// An item at `k` survives trimming when it is pinned or fewer than `m`
/// unpinned items stand before it.
pub proof fn lemma_trim_keeps_at(t: Seq<ClipItemView>, k: int, m: nat)
    requires
        0 <= k < t.len(),
        t[k].pinned || unpinned_count(t.take(k)) < m,
    ensures
        trim_keep(t, m).contains(t[k]),
    decreases t.len(),
{
    let d = t.drop_last();
    if k == t.len() - 1 {
        assert(d =~= t.take(k));
        assert(trim_keep(t, m) == trim_keep(d, m).push(t.last()));
        assert(trim_keep(t, m)[trim_keep(d, m).len() as int] == t[k]);
    } else {
        assert(d.take(k) =~= t.take(k));
        assert(d[k] == t[k]);
        lemma_trim_keeps_at(d, k, m);
        let r = trim_keep(d, m);
        let j = choose|j: int| 0 <= j < r.len() && r[j] == t[k];
        assert(trim_keep(t, m)[j] == t[k]);
    }
}

pub proof fn lemma_no_unpinned(s: Seq<ClipItemView>)
    requires
        forall|i: int| 0 <= i < s.len() ==> (#[trigger] s[i]).pinned,
    ensures
        unpinned_count(s) == 0,
    decreases s.len(),
{
    reveal(Seq::filter);
    if s.len() > 0 {
        let d = s.drop_last();
        assert forall|i: int| 0 <= i < d.len() implies (#[trigger] d[i]).pinned by {
            assert(d[i] == s[i]);
        }
        lemma_no_unpinned(d);
        assert(s.last() == s[s.len() - 1]);
    }
}

/// A new unpinned item survives the trim that follows its insertion.
pub proof fn lemma_new_item_kept(s: Seq<ClipItemView>, x: ClipItemView, m: nat)
    requires
        !x.pinned,
        m >= 1,
    ensures
        trim_keep(insert_pinned(s, x), m).contains(x),
{
    lemma_insert_pos(s, x);
    lemma_lead_pinned(s);
    let t = insert_pinned(s, x);
    let k = insert_pos(s, x);
    assert forall|i: int| 0 <= i < t.take(k).len() implies (#[trigger] t.take(k)[i]).pinned by {
        assert(t.take(k)[i] == s[i]);
    }
    lemma_no_unpinned(t.take(k));
    lemma_trim_keeps_at(t, k, m);
}

/// After a text is added, the history holds a text item with that text: the
/// one that was there (moved up), or the new one, which the trim that follows
/// keeps.
pub proof fn law_added_text_is_present(
    s: Seq<ClipItemView>,
    t: Seq<char>,
    now: u64,
    id: Seq<char>,
    m: nat,
)
    requires
        m >= 1,
    ensures
        first_match(s, holds_text(t)) < s.len() ==> first_match(
            refreshed(s, first_match(s, holds_text(t)), now),
            holds_text(t),
        ) < refreshed(s, first_match(s, holds_text(t)), now).len(),
        first_match(s, holds_text(t)) == s.len() ==> first_match(
            text_added(s, t, now, id, m),
            holds_text(t),
        ) < text_added(s, t, now, id, m).len(),
{
    lemma_first_match(s, holds_text(t));
    let p = first_match(s, holds_text(t));
    if p < s.len() {
        let y = ClipItemView { timestamp: now, ..s[p] };
        let r = refreshed(s, p, now);
        if s[p].pinned {
            assert(r[p] == y);
            lemma_found(r, holds_text(t), p);
        } else {
            lemma_insert_pos(s.remove(p), y);
            lemma_found(r, holds_text(t), insert_pos(s.remove(p), y));
        }
    } else {
        let x = text_item(t, now, id);
        lemma_new_item_kept(s, x, m);
        let a = text_added(s, t, now, id, m);
        let j = choose|j: int| 0 <= j < a.len() && a[j] == x;
        lemma_found(a, holds_text(t), j);
    }
}

/// An image added under a path whose file name holds its signature is found
/// again by that signature: adding the same bytes once more refreshes the item
/// instead of storing a second copy.
pub proof fn law_same_image_found(
    s: Seq<ClipItemView>,
    path: Seq<char>,
    size: usize,
    now: u64,
    id: Seq<char>,
    sig: Seq<char>,
    m: nat,
)
    requires
        m >= 1,
        file_name_spec(path) is Some,
        crate::text::contains_spec(file_name_spec(path)->0, sig),
    ensures
        first_match(trim_keep(insert_pinned(s, image_item(path, size, now, id)), m), holds_image(sig))
            < trim_keep(insert_pinned(s, image_item(path, size, now, id)), m).len(),
{
    let x = image_item(path, size, now, id);
    lemma_new_item_kept(s, x, m);
    let a = trim_keep(insert_pinned(s, x), m);
    let j = choose|j: int| 0 <= j < a.len() && a[j] == x;
    lemma_found(a, holds_image(sig), j);
}

/// The item with this id in `insert_pinned(s.remove(p), y)` is `y`, when no
/// other item has the id of `s[p]`.
pub proof fn lemma_moved_found(s: Seq<ClipItemView>, p: int, y: ClipItemView)
    requires
        id_unique(s, y.id),
        0 <= p < s.len(),
        y.id == s[p].id,
    ensures
        first_match(insert_pinned(s.remove(p), y), has_id(y.id)) == insert_pos(s.remove(p), y),
{
    let u = s.remove(p);
    lemma_insert_pos(u, y);
    let t = insert_pinned(u, y);
    let k = insert_pos(u, y);
    assert forall|j: int| 0 <= j < k implies !has_id(y.id)(#[trigger] t[j]) by {
        assert(t[j] == u[j]);
        let sj = if j < p { j } else { j + 1 };
        assert(u[j] == s[sj]);
        assert(sj != p);
    }
    crate::store::lemma_first_match_at(t, has_id(y.id), k);
}

/// Toggling the pin of an item twice gives the item back as it was, placed
/// where re-inserting it puts it (when no other item has its id).
pub proof fn law_toggle_twice(s: Seq<ClipItemView>, id: Seq<char>)
    requires
        id_unique(s, id),
        first_match(s, has_id(id)) < s.len(),
    ensures
        first_match(toggled(s, first_match(s, has_id(id))), has_id(id)) < s.len(),
        toggled(
            toggled(s, first_match(s, has_id(id))),
            first_match(toggled(s, first_match(s, has_id(id))), has_id(id)),
        ) == insert_pinned(s.remove(first_match(s, has_id(id))), s[first_match(s, has_id(id))]),
{
    lemma_first_match(s, has_id(id));
    let p = first_match(s, has_id(id));
    let y = ClipItemView { pinned: !s[p].pinned, ..s[p] };
    assert(s[p].id == id);
    lemma_moved_found(s, p, y);
    let u = s.remove(p);
    lemma_insert_pos(u, y);
    let t = toggled(s, p);
    let q = first_match(t, has_id(id));
    assert(q == insert_pos(u, y));
    assert(t[q] == y);
    assert(t.remove(q) == u);
    assert(ClipItemView { pinned: !t[q].pinned, ..t[q] } == s[p]);
}

/// After deleting an item, no item has its id (when no other item had it).
pub proof fn law_delete_removes(s: Seq<ClipItemView>, id: Seq<char>)
    requires
        id_unique(s, id),
        first_match(s, has_id(id)) < s.len(),
    ensures
        first_match(s.remove(first_match(s, has_id(id))), has_id(id)) == s.len() - 1,
{
    lemma_first_match(s, has_id(id));
    let p = first_match(s, has_id(id));
    let u = s.remove(p);
    assert(s[p].id == id);
    assert forall|j: int| 0 <= j < u.len() implies !has_id(id)(#[trigger] u[j]) by {
        let sj = if j < p { j } else { j + 1 };
        assert(u[j] == s[sj]);
        assert(sj != p);
    }
    crate::store::lemma_first_match_at(u, has_id(id), u.len() as int);
}

/// Moving the data directory keeps each image's file name: the new path is
/// that file name in the new images directory.
pub proof fn law_relocation_keeps_file_name(v: ClipItemView, images_dst: Seq<char>)
    requires
        v.image_path is Some,
        file_name_spec(v.image_path->0) is Some,
    ensures
        relocated(v, images_dst).image_path == Some(
            join_spec(images_dst, file_name_spec(v.image_path->0)->0),
        ),
        file_name_spec(relocated(v, images_dst).image_path->0) == file_name_spec(v.image_path->0),
{
    law_join_keeps_file_name(images_dst, v.image_path->0);
}

/// At most one item satisfies `f`.
pub open spec fn at_most_one(s: Seq<ClipItemView>, f: spec_fn(ClipItemView) -> bool) -> bool {
    forall|i: int, j: int|
        0 <= i < s.len() && 0 <= j < s.len() && f(#[trigger] s[i]) && f(#[trigger] s[j]) ==> i == j
}

/// Trimming keeps "at most one item satisfies `f`".
pub proof fn lemma_at_most_one_trim(s: Seq<ClipItemView>, m: nat, f: spec_fn(ClipItemView) -> bool)
    requires
        at_most_one(s, f),
    ensures
        at_most_one(trim_keep(s, m), f),
    decreases s.len(),
{
    if s.len() > 0 {
        let d = s.drop_last();
        assert(at_most_one(d, f)) by {
            assert forall|i: int, j: int|
                0 <= i < d.len() && 0 <= j < d.len() && f(#[trigger] d[i]) && f(#[trigger] d[j]) implies i
                == j by {
                assert(d[i] == s[i] && d[j] == s[j]);
            }
        }
        lemma_at_most_one_trim(d, m, f);
        crate::store::lemma_trim_keep_from(d, m);
        let r = trim_keep(d, m);
        let t = trim_keep(s, m);
        if t.len() == r.len() + 1 {
            assert(t == r.push(s.last()));
            assert forall|i: int, j: int|
                0 <= i < t.len() && 0 <= j < t.len() && f(#[trigger] t[i]) && f(#[trigger] t[j]) implies i
                == j by {
                if i < r.len() && j < r.len() {
                    assert(t[i] == r[i] && t[j] == r[j]);
                } else if i < r.len() {
                    assert(t[i] == r[i]);
                    let q = choose|q: int| 0 <= q < d.len() && r[i] == d[q];
                    assert(s[q] == d[q]);
                    assert(t[j] == s[s.len() - 1]);
                } else if j < r.len() {
                    assert(t[j] == r[j]);
                    let q = choose|q: int| 0 <= q < d.len() && r[j] == d[q];
                    assert(s[q] == d[q]);
                    assert(t[i] == s[s.len() - 1]);
                }
            }
        }
    }
}

/// The history after a text is added again.
pub open spec fn readded(h: Seq<ClipItemView>, t: Seq<char>, now: u64) -> Seq<ClipItemView> {
    refreshed(h, first_match(h, holds_text(t)), now)
}

/// Adding a text that was just added anew finds it (so the second addition is
/// no new item), keeps the length of the history, and leaves exactly one item
/// holding the text.
pub proof fn law_readd_text(
    s: Seq<ClipItemView>,
    t: Seq<char>,
    now1: u64,
    id1: Seq<char>,
    now2: u64,
    m: nat,
)
    requires
        m >= 1,
        first_match(s, holds_text(t)) == s.len(),
    ensures
        first_match(text_added(s, t, now1, id1, m), holds_text(t)) < text_added(
            s,
            t,
            now1,
            id1,
            m,
        ).len(),
        readded(text_added(s, t, now1, id1, m), t, now2).len() == text_added(
            s,
            t,
            now1,
            id1,
            m,
        ).len(),
        at_most_one(readded(text_added(s, t, now1, id1, m), t, now2), holds_text(t)),
        exists|i: int|
            0 <= i < readded(text_added(s, t, now1, id1, m), t, now2).len() && holds_text(t)(
                #[trigger] readded(text_added(s, t, now1, id1, m), t, now2)[i],
            ),
{
    let f = holds_text(t);
    lemma_first_match(s, f);
    let x = text_item(t, now1, id1);
    lemma_insert_pos(s, x);
    let u = insert_pinned(s, x);
    let k = insert_pos(s, x);
    assert(at_most_one(u, f)) by {
        assert forall|i: int| 0 <= i < u.len() && i != k implies !f(#[trigger] u[i]) by {
            let si = if i < k { i } else { i - 1 };
            assert(u[i] == s[si]);
        }
    }
    lemma_at_most_one_trim(u, m, f);
    lemma_new_item_kept(s, x, m);
    let h1 = text_added(s, t, now1, id1, m);
    let j = choose|j: int| 0 <= j < h1.len() && h1[j] == x;
    lemma_found(h1, f, j);
    lemma_first_match(h1, f);
    let q = first_match(h1, f);
    let y = ClipItemView { timestamp: now2, ..h1[q] };
    let h2 = readded(h1, t, now2);
    if h1[q].pinned {
        assert(h2 == h1.update(q, y));
        assert(h2[q] == y);
        assert forall|a: int, b: int|
            0 <= a < h2.len() && 0 <= b < h2.len() && f(#[trigger] h2[a]) && f(#[trigger] h2[b]) implies a
            == b by {
            if a != q {
                assert(h2[a] == h1[a]);
            }
            if b != q {
                assert(h2[b] == h1[b]);
            }
        }
    } else {
        let w = h1.remove(q);
        lemma_insert_pos(w, y);
        let kk = insert_pos(w, y);
        assert(h2 == insert_pinned(w, y));
        assert(h2[kk] == y);
        assert forall|a: int| 0 <= a < h2.len() && a != kk implies !f(#[trigger] h2[a]) by {
            let wa = if a < kk { a } else { a - 1 };
            assert(h2[a] == w[wa]);
            let ha = if wa < q { wa } else { wa + 1 };
            assert(w[wa] == h1[ha]);
        }
    }
}


/// The preview of a new text item is the head of the text: the whole text when
/// it has at most 160 characters, else exactly its first 160 characters.
pub proof fn law_preview_is_head(t: Seq<char>, now: u64, id: Seq<char>)
    ensures
        text_item(t, now, id).preview.len() == if t.len() <= 160 {
            t.len()
        } else {
            160
        },
        forall|i: int|
            0 <= i < text_item(t, now, id).preview.len() ==> #[trigger] text_item(t, now, id).preview[i]
                == t[i],
{
}

/// A store keeps `max_history` unpinned items, and one when that setting is zero.
pub proof fn law_limit_is_setting(st: Store)
    ensures
        st.limit() == if st.settings.max_history == 0 {
            1
        } else {
            st.settings.max_history as nat
        },
{
}

/// Trimming a history that holds no more unpinned items than the limit keeps
/// every item and evicts none.
pub proof fn law_trim_within_limit(s: Seq<ClipItemView>, m: nat)
    requires
        unpinned_count(s) <= m,
    ensures
        trim_keep(s, m) == s,
        trim_drop(s, m).len() == 0,
    decreases s.len(),
{
    if s.len() > 0 {
        let d = s.drop_last();
        lemma_unpinned_push(d, s.last());
        assert(d.push(s.last()) =~= s);
        law_trim_within_limit(d, m);
    }
}

/// Inserting an item adds one unpinned item when it is unpinned, none otherwise.
pub proof fn lemma_unpinned_insert(s: Seq<ClipItemView>, i: int, x: ClipItemView)
    requires
        0 <= i <= s.len(),
    ensures
        unpinned_count(s.insert(i, x)) == unpinned_count(s) + if x.pinned { 0nat } else { 1nat },
{
    let a = s.take(i);
    let b = s.skip(i);
    assert(s =~= a + b);
    assert(s.insert(i, x) =~= a.push(x) + b);
    Seq::filter_distributes_over_add(a, b, unpinned_pred());
    Seq::filter_distributes_over_add(a.push(x), b, unpinned_pred());
    lemma_unpinned_push(a, x);
}

/// A new text added to a history that holds fewer unpinned items than
/// `max_history` evicts nothing: the history only gains the new item.
pub proof fn law_no_eviction_under_limit(
    s: Seq<ClipItemView>,
    t: Seq<char>,
    now: u64,
    id: Seq<char>,
    max_history: usize,
)
    requires
        unpinned_count(s) < max_history,
    ensures
        text_evicted(s, t, now, id, history_limit(max_history)).len() == 0,
        text_added(s, t, now, id, history_limit(max_history)) == insert_pinned(s, text_item(t, now, id)),
{
    let x = text_item(t, now, id);
    lemma_lead_pinned(s);
    lemma_unpinned_insert(s, lead_pinned(s) as int, x);
    law_trim_within_limit(insert_pinned(s, x), history_limit(max_history));
}


/// Different digit values below 16 have different hexadecimal digits.
pub proof fn lemma_digit_injective(x: nat, y: nat)
    requires
        x < 16,
        y < 16,
        digit_spec(x) == digit_spec(y),
    ensures
        x == y,
{
    let d = seq!['0', '1', '2', '3', '4', '5', '6', '7', '8', '9', 'a', 'b', 'c', 'd', 'e', 'f'];
    assert(d[0] == '0' && d[1] == '1' && d[2] == '2' && d[3] == '3' && d[4] == '4' && d[5] == '5'
        && d[6] == '6' && d[7] == '7' && d[8] == '8' && d[9] == '9' && d[10] == 'a' && d[11] == 'b'
        && d[12] == 'c' && d[13] == 'd' && d[14] == 'e' && d[15] == 'f');
}

pub proof fn lemma_hex_len(n: nat)
    ensures
        hex_spec(n).len() >= 1,
        n >= 16 ==> hex_spec(n).len() >= 2,
    decreases n,
{
    if n >= 16 {
        lemma_hex_len(n / 16);
    }
}

/// Different numbers have different hexadecimal forms.
pub proof fn lemma_hex_injective(a: nat, b: nat)
    requires
        hex_spec(a) == hex_spec(b),
    ensures
        a == b,
    decreases a,
{
    lemma_hex_len(a);
    lemma_hex_len(b);
    if a < 16 && b < 16 {
        assert(hex_spec(a)[0] == digit_spec(a));
        assert(hex_spec(b)[0] == digit_spec(b));
        lemma_digit_injective(a, b);
    } else if a >= 16 && b >= 16 {
        let ha = hex_spec(a);
        assert(ha.last() == digit_spec(a % 16));
        assert(hex_spec(b).last() == digit_spec(b % 16));
        lemma_digit_injective(a % 16, b % 16);
        assert(ha.drop_last() =~= hex_spec(a / 16));
        assert(hex_spec(b).drop_last() =~= hex_spec(b / 16));
        lemma_hex_injective(a / 16, b / 16);
    }
}

/// One FNV-1a step, from the state `h` and the byte `c`.
pub open spec fn fnv_step(h: u64, c: u8) -> u64 {
    (((h ^ (c as u64)) as nat * 0x100000001b3nat) % 0x1_0000_0000_0000_0000nat) as u64
}

/// Multiplying by the odd FNV prime modulo 2^64 loses nothing.
pub proof fn lemma_prime_mul_injective(u: u64, v: u64)
    requires
        u != v,
    ensures
        (u as nat * 0x100000001b3nat) % 0x1_0000_0000_0000_0000nat != (v as nat * 0x100000001b3nat)
            % 0x1_0000_0000_0000_0000nat,
{
    assert(u != v ==> (u * 0x100000001b3u64) % 0x1_0000_0000_0000_0000 != (v * 0x100000001b3u64)
        % 0x1_0000_0000_0000_0000) by (bit_vector);
}

/// The hash of bytes with one more byte is one more FNV-1a step.
pub proof fn lemma_fnv_push(s: Seq<u8>, c: u8)
    ensures
        fnv1a(s.push(c)) == fnv_step(fnv1a(s), c),
{
    assert(s.push(c).drop_last() =~= s);
}

/// A step keeps different states apart, and from one state different bytes
/// lead to different states.
pub proof fn lemma_fnv_step_injective(h1: u64, c1: u8, h2: u64, c2: u8)
    requires
        h1 != h2 && c1 == c2 || h1 == h2 && c1 != c2,
    ensures
        fnv_step(h1, c1) != fnv_step(h2, c2),
{
    let x1 = c1 as u64;
    let x2 = c2 as u64;
    assert((h1 != h2 && x1 == x2 || h1 == h2 && x1 != x2) ==> (h1 ^ x1) != (h2 ^ x2)) by (bit_vector);
    lemma_prime_mul_injective(h1 ^ x1, h2 ^ x2);
}

/// Bytes with different hashes keep different hashes whatever follows them.
pub proof fn lemma_fnv_suffix(p: Seq<u8>, q: Seq<u8>, rest: Seq<u8>)
    requires
        fnv1a(p) != fnv1a(q),
    ensures
        fnv1a(p + rest) != fnv1a(q + rest),
    decreases rest.len(),
{
    if rest.len() == 0 {
        assert(p + rest =~= p);
        assert(q + rest =~= q);
    } else {
        let r = rest.drop_last();
        let c = rest.last();
        lemma_fnv_suffix(p, q, r);
        assert(p + rest =~= (p + r).push(c));
        assert(q + rest =~= (q + r).push(c));
        lemma_fnv_push(p + r, c);
        lemma_fnv_push(q + r, c);
        lemma_fnv_step_injective(fnv1a(p + r), c, fnv1a(q + r), c);
    }
}

/// The image signature takes in every byte: two images that differ in one
/// byte, at any position, get different signatures.
pub proof fn law_sig_sees_every_byte(head: Seq<u8>, x: u8, y: u8, tail: Seq<u8>)
    requires
        x != y,
    ensures
        image_sig(head.push(x) + tail) != image_sig(head.push(y) + tail),
{
    lemma_fnv_push(head, x);
    lemma_fnv_push(head, y);
    lemma_fnv_step_injective(fnv1a(head), x, fnv1a(head), y);
    lemma_fnv_suffix(head.push(x), head.push(y), tail);
    let hx = fnv1a(head.push(x) + tail);
    let hy = fnv1a(head.push(y) + tail);
    assert(image_sig(head.push(x) + tail) == hex_spec(hx as nat));
    assert(image_sig(head.push(y) + tail) == hex_spec(hy as nat));
    if hex_spec(hx as nat) == hex_spec(hy as nat) {
        lemma_hex_injective(hx as nat, hy as nat);
    }
}

/// The hash of the empty sequence is the FNV-1a offset basis, and each byte
/// is folded in with one FNV-1a step: xor, then multiply by the FNV prime
/// modulo 2^64.
pub proof fn law_fnv_folds_every_byte(s: Seq<u8>, c: u8)
    ensures
        fnv1a(Seq::empty()) == 0xcbf29ce484222325u64,
        fnv1a(s.push(c)) == (((fnv1a(s) ^ (c as u64)) as nat * 1099511628211nat) % 18446744073709551616nat) as u64,
{
    lemma_fnv_push(s, c);
}

} // verus!
