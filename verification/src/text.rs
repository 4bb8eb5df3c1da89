//! Character-level text utilities: trimming, splitting, number formatting and
//! substring search, each stated over `Seq<char>`.
use vstd::prelude::*;

verus! {

broadcast use vstd::string::axiom_spec_iter;

// ---------------------------------------------------------------------------
// Building strings
// ---------------------------------------------------------------------------

/// `String::push`: appends one character at the end of the string.
#[verifier::external_body]
pub(crate) fn push_char(s: &mut String, c: char)
    ensures
        final(s)@ == old(s)@.push(c),
{
    s.push(c);
}

/// The characters of a string slice, in order.
pub fn chars_of(s: &str) -> (r: Vec<char>)
    ensures
        r@ == s@,
{
    let mut r: Vec<char> = Vec::new();
    for c in it: s.chars()
        invariant
            r@ == it.seq().take(it.index() as int),
            it.seq() == s@,
    {
        r.push(c);
    }
    r
}

/// Appends the characters of `cs` to `s`.
pub fn push_chars(s: &mut String, cs: &Vec<char>)
    ensures
        final(s)@ == old(s)@ + cs@,
{
    let n = cs.len();
    let ghost start = s@;
    for i in 0..n
        invariant
            n == cs.len(),
            s@ == start + cs@.take(i as int),
    {
        push_char(s, cs[i]);
        assert(cs@.take(i + 1) == cs@.take(i as int).push(cs@[i as int]));
    }
    assert(cs@.take(n as int) == cs@);
}

/// Appends the characters of the string slice `t` to `s`.
pub fn push_str(s: &mut String, t: &str)
    ensures
        final(s)@ == old(s)@ + t@,
{
    let cs = chars_of(t);
    push_chars(s, &cs);
}

/// A string holding exactly the given characters.
pub fn string_of(cs: &Vec<char>) -> (r: String)
    ensures
        r@ == cs@,
{
    let mut r = String::new();
    push_chars(&mut r, cs);
    assert(Seq::<char>::empty() + cs@ == cs@);
    r
}

/// An owned copy of a string slice.
pub fn owned(t: &str) -> (r: String)
    ensures
        r@ == t@,
{
    t.to_owned()
}

/// Whether two string slices hold the same characters.
pub fn same_text(a: &str, b: &str) -> (r: bool)
    ensures
        r == (a@ == b@),
{
    let x = chars_of(a);
    let y = chars_of(b);
    seq_eq(&x, &y)
}

/// Whether two character vectors are equal.
pub fn seq_eq(x: &Vec<char>, y: &Vec<char>) -> (r: bool)
    ensures
        r == (x@ == y@),
{
    if x.len() != y.len() {
        return false;
    }
    let n = x.len();
    for i in 0..n
        invariant
            n == x.len(),
            n == y.len(),
            forall|j: int| 0 <= j < i ==> x@[j] == y@[j],
    {
        if x[i] != y[i] {
            return false;
        }
    }
    assert(x@ =~= y@);
    true
}

// ---------------------------------------------------------------------------
// Whitespace and trimming
// ---------------------------------------------------------------------------

/// The Unicode `White_Space` property, which `char::is_whitespace` tests.
pub open spec fn is_white(c: char) -> bool {
    let u = c as u32;
    (0x9 <= u && u <= 0xd) || u == 0x20 || u == 0x85 || u == 0xa0 || u == 0x1680 || (0x2000 <= u
        && u <= 0x200a) || u == 0x2028 || u == 0x2029 || u == 0x202f || u == 0x205f || u == 0x3000
}

/// The characters that a trim removes: whitespace, or single quotes when `quote` holds.
pub open spec fn is_trimmed(c: char, quote: bool) -> bool {
    if quote {
        c == '\''
    } else {
        is_white(c)
    }
}

/// `s` without its leading trimmed characters.
pub open spec fn trim_start_spec(s: Seq<char>, quote: bool) -> Seq<char>
    decreases s.len(),
{
    if s.len() > 0 && is_trimmed(s[0], quote) {
        trim_start_spec(s.drop_first(), quote)
    } else {
        s
    }
}

/// `s` without its trailing trimmed characters.
pub open spec fn trim_end_spec(s: Seq<char>, quote: bool) -> Seq<char>
    decreases s.len(),
{
    if s.len() > 0 && is_trimmed(s.last(), quote) {
        trim_end_spec(s.drop_last(), quote)
    } else {
        s
    }
}

/// `s` without leading and trailing trimmed characters (`str::trim`, or
/// `str::trim_matches('\'')` when `quote` holds).
pub open spec fn trim_spec(s: Seq<char>, quote: bool) -> Seq<char> {
    trim_end_spec(trim_start_spec(s, quote), quote)
}

/// Whitespace trimming, as `str::trim` does it.
pub open spec fn trim_ws(s: Seq<char>) -> Seq<char> {
    trim_spec(s, false)
}

/// A string is blank when nothing is left of it after trimming whitespace.
pub open spec fn is_blank_spec(s: Seq<char>) -> bool {
    trim_ws(s).len() == 0
}

pub proof fn lemma_trim_start_at(s: Seq<char>, quote: bool, i: int)
    requires
        0 <= i <= s.len(),
        forall|j: int| 0 <= j < i ==> is_trimmed(#[trigger] s[j], quote),
        i == s.len() || !is_trimmed(s[i], quote),
    ensures
        trim_start_spec(s, quote) == s.skip(i),
    decreases i,
{
    if i > 0 {
        let t = s.drop_first();
        assert forall|j: int| 0 <= j < i - 1 implies is_trimmed(#[trigger] t[j], quote) by {
            assert(t[j] == s[j + 1]);
        }
        lemma_trim_start_at(t, quote, i - 1);
        assert(t.skip(i - 1) =~= s.skip(i));
    } else {
        assert(s.skip(0) =~= s);
    }
}

pub proof fn lemma_trim_end_at(s: Seq<char>, quote: bool, k: int)
    requires
        0 <= k <= s.len(),
        forall|j: int| k <= j < s.len() ==> is_trimmed(#[trigger] s[j], quote),
        k == 0 || !is_trimmed(s[k - 1], quote),
    ensures
        trim_end_spec(s, quote) == s.take(k),
    decreases s.len() - k,
{
    if k < s.len() {
        let t = s.drop_last();
        assert(is_trimmed(s[s.len() - 1], quote));
        assert forall|j: int| k <= j < t.len() implies is_trimmed(#[trigger] t[j], quote) by {
            assert(t[j] == s[j]);
        }
        lemma_trim_end_at(t, quote, k);
        assert(t.take(k) =~= s.take(k));
    } else {
        assert(s.take(k) =~= s);
    }
}

/// Whether `c` is removed by a trim.
pub fn trimmed_char(c: char, quote: bool) -> (r: bool)
    ensures
        r == is_trimmed(c, quote),
{
    if quote {
        c == '\''
    } else {
        let u = c as u32;
        (0x9 <= u && u <= 0xd) || u == 0x20 || u == 0x85 || u == 0xa0 || u == 0x1680 || (0x2000
            <= u && u <= 0x200a) || u == 0x2028 || u == 0x2029 || u == 0x202f || u == 0x205f || u
            == 0x3000
    }
}

/// The characters of `s` from `i` (inclusive) to `j` (exclusive).
pub fn slice_chars(s: &Vec<char>, i: usize, j: usize) -> (r: Vec<char>)
    requires
        i <= j <= s.len(),
    ensures
        r@ == s@.subrange(i as int, j as int),
{
    let mut r: Vec<char> = Vec::new();
    let mut k = i;
    while k < j
        invariant
            i <= k <= j <= s.len(),
            r@ == s@.subrange(i as int, k as int),
        decreases j - k,
    {
        r.push(s[k]);
        k += 1;
        assert(r@ =~= s@.subrange(i as int, k as int));
    }
    r
}

/// Removes the leading and trailing trimmed characters of `s`.
pub fn trim_chars(s: &Vec<char>, quote: bool) -> (r: Vec<char>)
    ensures
        r@ == trim_spec(s@, quote),
{
    let n = s.len();
    let mut i: usize = 0;
    while i < n && trimmed_char(s[i], quote)
        invariant
            0 <= i <= n == s.len(),
            forall|j: int| 0 <= j < i ==> is_trimmed(#[trigger] s@[j], quote),
        decreases n - i,
    {
        i += 1;
    }
    proof {
        lemma_trim_start_at(s@, quote, i as int);
    }
    let mut j: usize = n;
    while j > i && trimmed_char(s[j - 1], quote)
        invariant
            i <= j <= n == s.len(),
            forall|m: int| j <= m < n ==> is_trimmed(#[trigger] s@[m], quote),
        decreases j,
    {
        j -= 1;
    }
    let ghost t = s@.skip(i as int);
    proof {
        assert forall|m: int| j - i <= m < t.len() implies is_trimmed(#[trigger] t[m], quote) by {
            assert(t[m] == s@[m + i]);
        }
        if j > i {
            assert(t[j - i - 1] == s@[j - 1]);
        }
        lemma_trim_end_at(t, quote, j - i);
        assert(t.take(j - i) =~= s@.subrange(i as int, j as int));
    }
    slice_chars(s, i, j)
}

/// `str::trim` on a string slice.
pub fn trim_str(s: &str) -> (r: Vec<char>)
    ensures
        r@ == trim_ws(s@),
{
    let cs = chars_of(s);
    trim_chars(&cs, false)
}

/// Whether a string holds nothing but whitespace.
pub fn is_blank(s: &str) -> (r: bool)
    ensures
        r == is_blank_spec(s@),
{
    trim_str(s).len() == 0
}

// ---------------------------------------------------------------------------
// Splitting
// ---------------------------------------------------------------------------

/// The pieces of `s` between occurrences of `sep`, as `str::split(sep)` yields them.
pub open spec fn split_spec(s: Seq<char>, sep: char) -> Seq<Seq<char>>
    decreases s.len(),
{
    if s.len() == 0 {
        seq![Seq::<char>::empty()]
    } else {
        let r = split_spec(s.drop_last(), sep);
        if s.last() == sep {
            r.push(Seq::<char>::empty())
        } else {
            r.update(r.len() - 1, r.last().push(s.last()))
        }
    }
}

pub proof fn lemma_split_len(s: Seq<char>, sep: char)
    ensures
        split_spec(s, sep).len() >= 1,
    decreases s.len(),
{
    if s.len() > 0 {
        lemma_split_len(s.drop_last(), sep);
    }
}

/// Splits `s` at every occurrence of `sep`.
pub fn split_chars(s: &Vec<char>, sep: char) -> (r: Vec<Vec<char>>)
    ensures
        r@.len() == split_spec(s@, sep).len(),
        forall|k: int| 0 <= k < r@.len() ==> #[trigger] r@[k]@ == split_spec(s@, sep)[k],
{
    let n = s.len();
    let mut done: Vec<Vec<char>> = Vec::new();
    let mut cur: Vec<char> = Vec::new();
    for i in 0..n
        invariant
            n == s.len(),
            done@.len() + 1 == split_spec(s@.take(i as int), sep).len(),
            forall|k: int|
                0 <= k < done@.len() ==> #[trigger] done@[k]@ == split_spec(
                    s@.take(i as int),
                    sep,
                )[k],
            cur@ == split_spec(s@.take(i as int), sep).last(),
    {
        let ghost pre = s@.take(i as int);
        let ghost post = s@.take(i + 1);
        proof {
            assert(post.drop_last() =~= pre);
            assert(post.last() == s@[i as int]);
            lemma_split_len(pre, sep);
        }
        let c = s[i];
        if c == sep {
            let piece = cur;
            cur = Vec::new();
            done.push(piece);
        } else {
            cur.push(c);
        }
    }
    proof {
        assert(s@.take(n as int) =~= s@);
        lemma_split_len(s@, sep);
    }
    done.push(cur);
    done
}

/// Splitting `x + b`, where `b` holds no separator, extends the last piece of `x` by `b`.
pub proof fn lemma_split_append(x: Seq<char>, b: Seq<char>, sep: char)
    requires
        forall|i: int| 0 <= i < b.len() ==> #[trigger] b[i] != sep,
    ensures
        split_spec(x + b, sep) == split_spec(x, sep).update(
            split_spec(x, sep).len() - 1,
            split_spec(x, sep).last() + b,
        ),
    decreases b.len(),
{
    lemma_split_len(x, sep);
    if b.len() == 0 {
        assert(x + b =~= x);
        assert(split_spec(x, sep).last() + b =~= split_spec(x, sep).last());
        assert(split_spec(x, sep).update(split_spec(x, sep).len() - 1, split_spec(x, sep).last())
            =~= split_spec(x, sep));
    } else {
        let d = b.drop_last();
        assert forall|i: int| 0 <= i < d.len() implies #[trigger] d[i] != sep by {
            assert(d[i] == b[i]);
        }
        lemma_split_append(x, d, sep);
        assert((x + b).drop_last() =~= x + d);
        assert((x + b).last() == b.last());
        assert(b.last() == b[b.len() - 1]);
        lemma_split_len(x + d, sep);
        let s = split_spec(x, sep);
        let r = split_spec(x + d, sep);
        assert(r.len() == s.len());
        assert(r.last() == s.last() + d);
        assert((s.last() + d).push(b.last()) =~= s.last() + b);
        assert(split_spec(x + b, sep) == r.update(r.len() - 1, r.last().push(b.last())));
        assert(split_spec(x + b, sep) =~= s.update(s.len() - 1, s.last() + b));
    }
}

/// Splitting `a`, a separator, then `b` without separators, adds `b` as a piece.
pub proof fn lemma_split_after_sep(a: Seq<char>, b: Seq<char>, sep: char)
    requires
        forall|i: int| 0 <= i < b.len() ==> #[trigger] b[i] != sep,
    ensures
        split_spec(a.push(sep) + b, sep) == split_spec(a, sep).push(b),
{
    lemma_split_append(a.push(sep), b, sep);
    assert(a.push(sep).drop_last() =~= a);
    let s = split_spec(a, sep).push(Seq::<char>::empty());
    assert(Seq::<char>::empty() + b =~= b);
    assert(s.update(s.len() - 1, b) =~= split_spec(a, sep).push(b));
}

/// A first piece without separators, then a separator, then the rest: the
/// pieces are that first piece followed by the pieces of the rest.
pub proof fn lemma_split_prepend(l: Seq<char>, rest: Seq<char>, sep: char)
    requires
        forall|i: int| 0 <= i < l.len() ==> #[trigger] l[i] != sep,
    ensures
        split_spec(l.push(sep) + rest, sep) == seq![l] + split_spec(rest, sep),
    decreases rest.len(),
{
    if rest.len() == 0 {
        assert(l.push(sep) + rest =~= l.push(sep));
        assert(l.push(sep).drop_last() =~= l);
        lemma_split_single(l, sep);
        assert(seq![l].push(Seq::<char>::empty()) =~= seq![l] + seq![Seq::<char>::empty()]);
    } else {
        let d = rest.drop_last();
        lemma_split_prepend(l, d, sep);
        lemma_split_len(d, sep);
        let s = l.push(sep) + rest;
        assert(s.drop_last() =~= l.push(sep) + d);
        assert(s.last() == rest.last());
        let r = split_spec(d, sep);
        if rest.last() == sep {
            assert((seq![l] + r).push(Seq::<char>::empty()) =~= seq![l] + r.push(Seq::<char>::empty()));
        } else {
            let t = seq![l] + r;
            assert(t.last() == r.last());
            assert(t.update(t.len() - 1, t.last().push(rest.last())) =~= seq![l] + r.update(
                r.len() - 1,
                r.last().push(rest.last()),
            ));
        }
    }
}

/// Text without separators is a single piece.
pub proof fn lemma_split_single(b: Seq<char>, sep: char)
    requires
        forall|i: int| 0 <= i < b.len() ==> #[trigger] b[i] != sep,
    ensures
        split_spec(b, sep) == seq![b],
{
    lemma_split_append(Seq::empty(), b, sep);
    assert(Seq::<char>::empty() + b =~= b);
    assert(seq![Seq::<char>::empty()].update(0, Seq::<char>::empty() + b) =~= seq![b]);
}

/// No piece of a split holds the separator.
pub proof fn lemma_split_pieces(s: Seq<char>, sep: char)
    ensures
        forall|k: int, i: int|
            0 <= k < split_spec(s, sep).len() && 0 <= i < split_spec(s, sep)[k].len() ==> #[trigger] split_spec(
                s,
                sep,
            )[k][i] != sep,
    decreases s.len(),
{
    if s.len() > 0 {
        let d = s.drop_last();
        lemma_split_pieces(d, sep);
        lemma_split_len(d, sep);
        let r = split_spec(d, sep);
        assert forall|k: int, i: int|
            0 <= k < split_spec(s, sep).len() && 0 <= i < split_spec(s, sep)[k].len() implies #[trigger] split_spec(
            s,
            sep,
        )[k][i] != sep by {
            if s.last() != sep && k == r.len() - 1 {
                if i < r[k].len() {
                    assert(split_spec(s, sep)[k][i] == r[k][i]);
                }
            } else if k < r.len() {
                assert(split_spec(s, sep)[k] == r[k]);
            }
        }
    }
}

/// Trimming adds no character: what `s` lacks, its trim lacks.
pub proof fn lemma_trim_keeps_free(s: Seq<char>, quote: bool, c: char)
    requires
        forall|i: int| 0 <= i < s.len() ==> #[trigger] s[i] != c,
    ensures
        forall|i: int|
            0 <= i < trim_spec(s, quote).len() ==> #[trigger] trim_spec(s, quote)[i] != c,
{
    lemma_trim_start_free(s, quote, c);
    lemma_trim_end_free(trim_start_spec(s, quote), quote, c);
}

proof fn lemma_trim_start_free(s: Seq<char>, quote: bool, c: char)
    requires
        forall|i: int| 0 <= i < s.len() ==> #[trigger] s[i] != c,
    ensures
        forall|i: int|
            0 <= i < trim_start_spec(s, quote).len() ==> #[trigger] trim_start_spec(s, quote)[i] != c,
    decreases s.len(),
{
    if s.len() > 0 && is_trimmed(s[0], quote) {
        let t = s.drop_first();
        assert forall|i: int| 0 <= i < t.len() implies #[trigger] t[i] != c by {
            assert(t[i] == s[i + 1]);
        }
        lemma_trim_start_free(t, quote, c);
        assert(trim_start_spec(s, quote) == trim_start_spec(t, quote));
    } else {
        assert(trim_start_spec(s, quote) == s);
    }
}

proof fn lemma_trim_end_free(s: Seq<char>, quote: bool, c: char)
    requires
        forall|i: int| 0 <= i < s.len() ==> #[trigger] s[i] != c,
    ensures
        forall|i: int|
            0 <= i < trim_end_spec(s, quote).len() ==> #[trigger] trim_end_spec(s, quote)[i] != c,
    decreases s.len(),
{
    if s.len() > 0 && is_trimmed(s.last(), quote) {
        let t = s.drop_last();
        assert forall|i: int| 0 <= i < t.len() implies #[trigger] t[i] != c by {
            assert(t[i] == s[i]);
        }
        lemma_trim_end_free(t, quote, c);
        assert(trim_end_spec(s, quote) == trim_end_spec(t, quote));
    } else {
        assert(trim_end_spec(s, quote) == s);
    }
}

// ---------------------------------------------------------------------------
// Number formatting
// ---------------------------------------------------------------------------

/// The digit characters `0-9a-f`.
pub open spec fn digit_spec(d: nat) -> char {
    seq!['0', '1', '2', '3', '4', '5', '6', '7', '8', '9', 'a', 'b', 'c', 'd', 'e', 'f'][d as int]
}

/// Lower-case hexadecimal digits of `n`, without leading zeros (`format!("{:x}", n)`).
pub open spec fn hex_spec(n: nat) -> Seq<char>
    decreases n,
{
    if n < 16 {
        seq![digit_spec(n)]
    } else {
        hex_spec(n / 16).push(digit_spec(n % 16))
    }
}

/// Decimal digits of `n`, without leading zeros (`format!("{}", n)`).
pub open spec fn dec_spec(n: nat) -> Seq<char>
    decreases n,
{
    if n < 10 {
        seq![digit_spec(n)]
    } else {
        dec_spec(n / 10).push(digit_spec(n % 10))
    }
}

/// The digit character for `d`.
pub fn digit(d: u8) -> (c: char)
    requires
        d < 16,
    ensures
        c == digit_spec(d as nat),
{
    if d < 8 {
        if d < 4 {
            if d == 0 {
                '0'
            } else if d == 1 {
                '1'
            } else if d == 2 {
                '2'
            } else {
                '3'
            }
        } else {
            if d == 4 {
                '4'
            } else if d == 5 {
                '5'
            } else if d == 6 {
                '6'
            } else {
                '7'
            }
        }
    } else {
        if d < 12 {
            if d == 8 {
                '8'
            } else if d == 9 {
                '9'
            } else if d == 10 {
                'a'
            } else {
                'b'
            }
        } else {
            if d == 12 {
                'c'
            } else if d == 13 {
                'd'
            } else if d == 14 {
                'e'
            } else {
                'f'
            }
        }
    }
}

/// Appends the hexadecimal digits of `n` to `out`.
pub fn push_hex(n: u128, out: &mut Vec<char>)
    ensures
        final(out)@ == old(out)@ + hex_spec(n as nat),
    decreases n,
{
    let ghost start = out@;
    if n >= 16 {
        push_hex(n / 16, out);
    }
    let d = (n % 16) as u8;
    out.push(digit(d));
    assert(out@ =~= start + hex_spec(n as nat));
}

/// Appends the decimal digits of `n` to `out`.
pub fn push_dec(n: u128, out: &mut Vec<char>)
    ensures
        final(out)@ == old(out)@ + dec_spec(n as nat),
    decreases n,
{
    let ghost start = out@;
    if n >= 10 {
        push_dec(n / 10, out);
    }
    let d = (n % 10) as u8;
    out.push(digit(d));
    assert(out@ =~= start + dec_spec(n as nat));
}

/// `format!("{:x}", n)`.
pub fn hex_string(n: u128) -> (r: String)
    ensures
        r@ == hex_spec(n as nat),
{
    let mut v: Vec<char> = Vec::new();
    push_hex(n, &mut v);
    assert(Seq::<char>::empty() + hex_spec(n as nat) == hex_spec(n as nat));
    string_of(&v)
}

/// `format!("{}", n)`.
pub fn dec_string(n: u128) -> (r: String)
    ensures
        r@ == dec_spec(n as nat),
{
    let mut v: Vec<char> = Vec::new();
    push_dec(n, &mut v);
    assert(Seq::<char>::empty() + dec_spec(n as nat) == dec_spec(n as nat));
    string_of(&v)
}

// ---------------------------------------------------------------------------
// Substring search
// ---------------------------------------------------------------------------

/// `needle` occurs in `hay` starting at position `i`.
pub open spec fn occurs_at(hay: Seq<char>, needle: Seq<char>, i: int) -> bool {
    0 <= i && i + needle.len() <= hay.len() && hay.subrange(i, i + needle.len()) == needle
}

/// `needle` occurs somewhere in `hay` (`str::contains`).
pub open spec fn contains_spec(hay: Seq<char>, needle: Seq<char>) -> bool {
    exists|i: int| occurs_at(hay, needle, i)
}

/// Whether `needle` occurs in `hay` at position `i`.
fn matches_at(hay: &Vec<char>, needle: &Vec<char>, i: usize) -> (r: bool)
    requires
        i + needle.len() <= hay.len(),
    ensures
        r == occurs_at(hay@, needle@, i as int),
{
    let m = needle.len();
    for k in 0..m
        invariant
            m == needle.len(),
            i + m <= hay.len(),
            forall|j: int| 0 <= j < k ==> hay@[i + j] == needle@[j],
    {
        if hay[i + k] != needle[k] {
            assert(hay@.subrange(i as int, i + m)[k as int] != needle@[k as int]);
            return false;
        }
    }
    assert(hay@.subrange(i as int, i + m) =~= needle@);
    true
}

/// Whether `needle` occurs in `hay`.
pub fn contains_chars(hay: &Vec<char>, needle: &Vec<char>) -> (r: bool)
    ensures
        r == contains_spec(hay@, needle@),
{
    if needle.len() > hay.len() {
        assert forall|i: int| !occurs_at(hay@, needle@, i) by {}
        return false;
    }
    let last = hay.len() - needle.len();
    for i in 0..last
        invariant
            last + needle.len() == hay.len(),
            forall|j: int| 0 <= j < i ==> !occurs_at(hay@, needle@, j),
    {
        if matches_at(hay, needle, i) {
            return true;
        }
    }
    if matches_at(hay, needle, last) {
        return true;
    }
    assert forall|j: int| !occurs_at(hay@, needle@, j) by {
        if 0 <= j < last {
        }
    }
    false
}

} // verus!
