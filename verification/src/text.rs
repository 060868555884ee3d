//! Character-level text model shared by the chunker, the markdown and HTML
//! extractors and the error messages: Unicode whitespace, trimming, words,
//! joining and decimal rendering, all over `Seq<char>`.

use vstd::prelude::*;

verus! {

/// The Unicode `White_Space` property, which `char::is_whitespace` tests.
pub open spec fn is_ws(c: char) -> bool {
    let u = c as u32;
    u == 0x20 || (0x9 <= u && u <= 0xd) || u == 0x85 || u == 0xa0 || u == 0x1680 || (0x2000 <= u
        && u <= 0x200a) || u == 0x2028 || u == 0x2029 || u == 0x202f || u == 0x205f || u == 0x3000
}

/// `char::is_whitespace`, written out over the `White_Space` code points.
pub fn is_whitespace(c: char) -> (r: bool)
    ensures
        r == is_ws(c),
{
    let u = c as u32;
    u == 0x20 || (0x9 <= u && u <= 0xd) || u == 0x85 || u == 0xa0 || u == 0x1680 || (0x2000 <= u
        && u <= 0x200a) || u == 0x2028 || u == 0x2029 || u == 0x202f || u == 0x205f || u == 0x3000
}

/// The Unicode `Uppercase` property of a character, as `char::is_uppercase` reports it.
pub uninterp spec fn is_upper(c: char) -> bool;

/// Calls `char::is_uppercase` (std), which reports the Unicode `Uppercase`
/// property; the contract only names that result.
#[verifier::external_body]
pub(crate) fn char_is_uppercase(c: char) -> (r: bool)
    ensures
        r == is_upper(c),
{
    c.is_uppercase()
}

/// The full Unicode lowercase mapping of a string, as `str::to_lowercase` computes it.
pub uninterp spec fn lowercase(s: Seq<char>) -> Seq<char>;

/// Calls `str::to_lowercase` (std); the contract names its result, which
/// depends on the string alone.
#[verifier::external_body]
pub(crate) fn to_lowercase(s: &str) -> (r: String)
    ensures
        r@ == lowercase(s@),
{
    s.to_lowercase()
}

/// Calls `String::push` (std): appends one character.
#[verifier::external_body]
pub(crate) fn push_char(s: &mut String, c: char)
    ensures
        final(s)@ == old(s)@.push(c),
{
    s.push(c)
}

/// The characters of a string, in order.
pub fn to_chars(s: &str) -> (v: Vec<char>)
    ensures
        v@ == s@,
{
    let mut v: Vec<char> = Vec::new();
    for c in it: s.chars()
        invariant
            v@ == it.seq().take(it.index() as int),
            it.seq() == s@,
    {
        v.push(c);
    }
    v
}

/// The string made of the given characters.
pub fn from_chars(v: &Vec<char>) -> (s: String)
    ensures
        s@ == v@,
{
    let mut s = String::new();
    let mut i: usize = 0;
    while i < v.len()
        invariant
            i <= v.len(),
            s@ == v@.take(i as int),
        decreases v.len() - i,
    {
        push_char(&mut s, v[i]);
        i = i + 1;
        assert(s@ == v@.take(i as int));
    }
    assert(v@.take(v.len() as int) == v@);
    s
}

/// Number of leading whitespace characters.
pub open spec fn lead_ws(s: Seq<char>) -> nat
    decreases s.len(),
{
    if s.len() > 0 && is_ws(s[0]) {
        1 + lead_ws(s.drop_first())
    } else {
        0
    }
}

/// Number of trailing whitespace characters.
pub open spec fn trail_ws(s: Seq<char>) -> nat
    decreases s.len(),
{
    if s.len() > 0 && is_ws(s.last()) {
        1 + trail_ws(s.drop_last())
    } else {
        0
    }
}

/// `str::trim`: the text without its leading and trailing whitespace.
pub open spec fn trim(s: Seq<char>) -> Seq<char> {
    if lead_ws(s) == s.len() {
        Seq::empty()
    } else {
        s.subrange(lead_ws(s) as int, s.len() - trail_ws(s))
    }
}

/// Some character of `s` is not whitespace.
pub open spec fn has_non_ws(s: Seq<char>) -> bool {
    exists|i: int| 0 <= i < s.len() && !is_ws(#[trigger] s[i])
}

pub proof fn lemma_lead_ws(s: Seq<char>, i: int)
    requires
        0 <= i <= s.len(),
        forall|j: int| 0 <= j < i ==> is_ws(#[trigger] s[j]),
        i == s.len() || !is_ws(s[i]),
    ensures
        lead_ws(s) == i,
    decreases i,
{
    if i > 0 {
        let t = s.drop_first();
        assert forall|j: int| 0 <= j < i - 1 implies is_ws(#[trigger] t[j]) by {
            assert(t[j] == s[j + 1]);
        }
        if i < s.len() {
            assert(t[i - 1] == s[i]);
        }
        lemma_lead_ws(t, i - 1);
    }
}

pub proof fn lemma_trail_ws(s: Seq<char>, k: int)
    requires
        0 <= k <= s.len(),
        forall|j: int| s.len() - k <= j < s.len() ==> is_ws(#[trigger] s[j]),
        k == s.len() || !is_ws(s[s.len() - k - 1]),
    ensures
        trail_ws(s) == k,
    decreases k,
{
    if k > 0 {
        let t = s.drop_last();
        assert forall|j: int| t.len() - (k - 1) <= j < t.len() implies is_ws(#[trigger] t[j]) by {
            assert(t[j] == s[j]);
        }
        if k < s.len() {
            assert(t[t.len() - (k - 1) - 1] == s[s.len() - k - 1]);
        }
        lemma_trail_ws(t, k - 1);
    }
}

/// Positions that `lead_ws` counts are whitespace and the next one is not.
pub proof fn lemma_lead_ws_props(s: Seq<char>)
    ensures
        lead_ws(s) <= s.len(),
        forall|j: int| 0 <= j < lead_ws(s) ==> is_ws(#[trigger] s[j]),
        lead_ws(s) < s.len() ==> !is_ws(s[lead_ws(s) as int]),
    decreases s.len(),
{
    if s.len() > 0 && is_ws(s[0]) {
        let t = s.drop_first();
        lemma_lead_ws_props(t);
        assert forall|j: int| 0 <= j < lead_ws(s) implies is_ws(#[trigger] s[j]) by {
            if j > 0 {
                assert(s[j] == t[j - 1]);
            }
        }
        if lead_ws(s) < s.len() {
            assert(s[lead_ws(s) as int] == t[lead_ws(t) as int]);
        }
    }
}

/// Positions that `trail_ws` counts are whitespace and the one before is not.
pub proof fn lemma_trail_ws_props(s: Seq<char>)
    ensures
        trail_ws(s) <= s.len(),
        forall|j: int| s.len() - trail_ws(s) <= j < s.len() ==> is_ws(#[trigger] s[j]),
        trail_ws(s) < s.len() ==> !is_ws(s[s.len() - trail_ws(s) - 1]),
    decreases s.len(),
{
    if s.len() > 0 && is_ws(s.last()) {
        let t = s.drop_last();
        lemma_trail_ws_props(t);
        assert forall|j: int| s.len() - trail_ws(s) <= j < s.len() implies is_ws(
            #[trigger] s[j],
        ) by {
            if j < s.len() - 1 {
                assert(s[j] == t[j]);
            }
        }
        if trail_ws(s) < s.len() {
            assert(s[s.len() - trail_ws(s) - 1] == t[t.len() - trail_ws(t) - 1]);
        }
    }
}

/// The trimmed text is empty exactly when the text is all whitespace, and a
/// non-empty trimmed text starts and ends with non-whitespace.
pub proof fn lemma_trim_props(s: Seq<char>)
    ensures
        trim(s).len() == 0 <==> !has_non_ws(s),
        trim(s).len() > 0 ==> !is_ws(trim(s)[0]) && !is_ws(trim(s).last()),
        trim(s).len() <= s.len(),
{
    lemma_lead_ws_props(s);
    lemma_trail_ws_props(s);
    let a = lead_ws(s) as int;
    let b = s.len() - trail_ws(s);
    if a == s.len() {
        assert(!has_non_ws(s));
    } else {
        assert(!is_ws(s[a]));
        assert(has_non_ws(s));
        // the trailing run cannot reach past the first non-whitespace character
        assert(a < b) by {
            if b <= a {
                assert(is_ws(s[a]));
            }
        }
        assert(trim(s)[0] == s[a]);
        assert(trim(s).last() == s[b - 1]);
    }
}

/// Trims a character sequence (`str::trim`).
pub fn trim_chars(v: &Vec<char>) -> (r: Vec<char>)
    ensures
        r@ == trim(v@),
{
    let r = trim_range(v, 0, v.len());
    assert(v@.subrange(0, v.len() as int) == v@);
    r
}

/// Trims the characters `v[lo..hi]`.
pub fn trim_range(v: &Vec<char>, lo: usize, hi: usize) -> (r: Vec<char>)
    requires
        lo <= hi <= v.len(),
    ensures
        r@ == trim(v@.subrange(lo as int, hi as int)),
{
    let ghost s = v@.subrange(lo as int, hi as int);
    let mut a: usize = lo;
    while a < hi && is_whitespace(v[a])
        invariant
            lo <= a <= hi <= v.len(),
            s == v@.subrange(lo as int, hi as int),
            forall|j: int| 0 <= j < a - lo ==> is_ws(#[trigger] s[j]),
        decreases hi - a,
    {
        assert(s[a - lo] == v@[a as int]);
        a = a + 1;
    }
    proof {
        if a < hi {
            assert(s[a - lo] == v@[a as int]);
        }
        lemma_lead_ws(s, a - lo);
    }
    if a == hi {
        return Vec::new();
    }
    let mut b: usize = hi;
    while b > a && is_whitespace(v[b - 1])
        invariant
            lo <= a < hi <= v.len(),
            a <= b <= hi,
            s == v@.subrange(lo as int, hi as int),
            !is_ws(v@[a as int]),
            forall|j: int| b - lo <= j < hi - lo ==> is_ws(#[trigger] s[j]),
        decreases b,
    {
        assert(s[b - 1 - lo] == v@[b - 1]);
        b = b - 1;
    }
    proof {
        assert(s[b - 1 - lo] == v@[b - 1]);
        lemma_trail_ws(s, hi - b);
    }
    let mut r: Vec<char> = Vec::new();
    let mut i: usize = a;
    while i < b
        invariant
            a <= i <= b <= hi <= v.len(),
            r@ == v@.subrange(a as int, i as int),
        decreases b - i,
    {
        r.push(v[i]);
        i = i + 1;
    }
    assert(r@ =~= s.subrange(lead_ws(s) as int, s.len() - trail_ws(s)));
    r
}

/// Appends `s` to `out`.
pub fn append_chars(out: &mut Vec<char>, s: &Vec<char>)
    ensures
        final(out)@ == old(out)@ + s@,
{
    let mut i: usize = 0;
    let ghost base = out@;
    while i < s.len()
        invariant
            i <= s.len(),
            out@ == base + s@.take(i as int),
        decreases s.len() - i,
    {
        out.push(s[i]);
        i = i + 1;
        assert(out@ =~= base + s@.take(i as int));
    }
    assert(s@.take(s.len() as int) == s@);
}

/// Left-to-right scan that collects whitespace-separated words: the words
/// completed so far and the word in progress.
pub open spec fn word_scan(s: Seq<char>) -> (Seq<Seq<char>>, Seq<char>)
    decreases s.len(),
{
    if s.len() == 0 {
        (Seq::empty(), Seq::empty())
    } else {
        let (done, cur) = word_scan(s.drop_last());
        let c = s.last();
        if is_ws(c) {
            if cur.len() > 0 {
                (done.push(cur), Seq::empty())
            } else {
                (done, cur)
            }
        } else {
            (done, cur.push(c))
        }
    }
}

/// `str::split_whitespace`: the maximal runs of non-whitespace characters.
pub open spec fn words(s: Seq<char>) -> Seq<Seq<char>> {
    let (done, cur) = word_scan(s);
    if cur.len() > 0 {
        done.push(cur)
    } else {
        done
    }
}

/// Words joined with a separator (`[&str]::join`).
pub open spec fn join(ws: Seq<Seq<char>>, sep: Seq<char>) -> Seq<char>
    decreases ws.len(),
{
    if ws.len() == 0 {
        Seq::empty()
    } else if ws.len() == 1 {
        ws[0]
    } else {
        join(ws.drop_last(), sep) + sep + ws.last()
    }
}

/// `split_whitespace().collect::<Vec<_>>().join(" ")`: runs of whitespace
/// collapse to one space, and the ends are trimmed.
pub open spec fn normalize_ws(s: Seq<char>) -> Seq<char> {
    join(words(s), seq![' '])
}

/// Every word of the scan is non-empty and free of whitespace.
pub open spec fn words_clean(ws: Seq<Seq<char>>) -> bool {
    forall|k: int|
        0 <= k < ws.len() ==> (#[trigger] ws[k]).len() > 0 && (forall|j: int|
            0 <= j < ws[k].len() ==> !is_ws(#[trigger] ws[k][j]))
}

pub proof fn lemma_word_scan_clean(s: Seq<char>)
    ensures
        words_clean(word_scan(s).0),
        forall|j: int|
            0 <= j < word_scan(s).1.len() ==> !is_ws(#[trigger] word_scan(s).1[j]),
    decreases s.len(),
{
    if s.len() > 0 {
        lemma_word_scan_clean(s.drop_last());
    }
}

pub proof fn lemma_words_clean(s: Seq<char>)
    ensures
        words_clean(words(s)),
{
    lemma_word_scan_clean(s);
}

/// A text has a word exactly when it has a non-whitespace character.
pub proof fn lemma_words_nonempty(s: Seq<char>)
    ensures
        words(s).len() > 0 <==> has_non_ws(s),
        word_scan(s).0.len() > 0 || word_scan(s).1.len() > 0 <==> has_non_ws(s),
    decreases s.len(),
{
    if s.len() > 0 {
        let t = s.drop_last();
        lemma_words_nonempty(t);
        if has_non_ws(t) {
            let i = choose|i: int| 0 <= i < t.len() && !is_ws(#[trigger] t[i]);
            assert(s[i] == t[i]);
        }
        if has_non_ws(s) && !is_ws(s.last()) {
        } else if has_non_ws(s) {
            let i = choose|i: int| 0 <= i < s.len() && !is_ws(#[trigger] s[i]);
            assert(i < s.len() - 1);
            assert(t[i] == s[i]);
        }
    }
}

/// Whitespace only occurs as single spaces between non-whitespace
/// characters: no leading, trailing, doubled or non-space whitespace.
pub open spec fn well_spaced(r: Seq<char>) -> bool {
    forall|i: int|
        0 <= i < r.len() && is_ws(#[trigger] r[i]) ==> r[i] == ' ' && 0 < i < r.len() - 1
            && !is_ws(r[i - 1]) && !is_ws(r[i + 1])
}

pub proof fn lemma_join_well_spaced(ws: Seq<Seq<char>>)
    requires
        words_clean(ws),
    ensures
        well_spaced(join(ws, seq![' '])),
        ws.len() > 0 ==> join(ws, seq![' ']).len() > 0 && !is_ws(join(ws, seq![' '])[0])
            && !is_ws(join(ws, seq![' ']).last()),
    decreases ws.len(),
{
    if ws.len() == 1 {
        assert(ws[0].len() > 0);
        assert(!is_ws(ws[0][0]));
        assert(!is_ws(ws[0][ws[0].len() - 1]));
        assert forall|i: int|
            0 <= i < join(ws, seq![' ']).len() implies !is_ws(#[trigger] join(ws, seq![' '])[i]) by {
            assert(!is_ws(ws[0][i]));
        }
    } else if ws.len() > 1 {
        let prev = ws.drop_last();
        assert forall|k: int| 0 <= k < prev.len() implies (#[trigger] prev[k]).len() > 0
            && (forall|j: int| 0 <= j < prev[k].len() ==> !is_ws(#[trigger] prev[k][j])) by {
            assert(prev[k] == ws[k]);
        }
        lemma_join_well_spaced(prev);
        let j = join(prev, seq![' ']);
        let w = ws.last();
        let r = join(ws, seq![' ']);
        assert(w == ws[ws.len() - 1]);
        assert(w.len() > 0);
        assert(r == j + seq![' '] + w);
        assert forall|i: int| 0 <= i < r.len() && is_ws(#[trigger] r[i]) implies r[i] == ' '
            && 0 < i < r.len() - 1 && !is_ws(r[i - 1]) && !is_ws(r[i + 1]) by {
            if i < j.len() {
                assert(r[i] == j[i]);
                assert(is_ws(j[i]));
                assert(r[i - 1] == j[i - 1]);
                assert(r[i + 1] == j[i + 1]);
            } else if i == j.len() {
                assert(r[i - 1] == j.last());
                assert(r[i + 1] == w[0]);
            } else {
                assert(r[i] == w[i - j.len() - 1]);
                assert(!is_ws(w[i - j.len() - 1]));
            }
        }
        assert(r[0] == j[0]);
        assert(r.last() == w[w.len() - 1]);
        assert(!is_ws(w[w.len() - 1]));
    }
}

/// Normalized text is well spaced: whitespace runs have become single
/// spaces between words, and the ends are trimmed.
pub proof fn law_normalized_well_spaced(s: Seq<char>)
    ensures
        well_spaced(normalize_ws(s)),
        normalize_ws(s).len() > 0 <==> has_non_ws(s),
{
    lemma_words_clean(s);
    lemma_words_nonempty(s);
    lemma_join_well_spaced(words(s));
    if words(s).len() == 0 {
        assert(normalize_ws(s) =~= Seq::<char>::empty());
    }
}

proof fn lemma_word_scan_extend_word(a: Seq<char>, w: Seq<char>)
    requires
        forall|j: int| 0 <= j < w.len() ==> !is_ws(#[trigger] w[j]),
    ensures
        word_scan(a + w) == (word_scan(a).0, word_scan(a).1 + w),
    decreases w.len(),
{
    if w.len() == 0 {
        assert(a + w =~= a);
        assert(word_scan(a).1 + w =~= word_scan(a).1);
    } else {
        let v = w.drop_last();
        assert forall|j: int| 0 <= j < v.len() implies !is_ws(#[trigger] v[j]) by {
            assert(v[j] == w[j]);
        }
        lemma_word_scan_extend_word(a, v);
        assert((a + w).drop_last() =~= a + v);
        assert((a + w).last() == w.last());
        assert(!is_ws(w[w.len() - 1]));
        assert(word_scan(a).1 + v + seq![w.last()] =~= word_scan(a).1 + w);
        assert((word_scan(a).1 + v).push(w.last()) =~= word_scan(a).1 + w);
    }
}

proof fn lemma_word_scan_join(ws: Seq<Seq<char>>)
    requires
        words_clean(ws),
        ws.len() > 0,
    ensures
        word_scan(join(ws, seq![' '])) == (ws.drop_last(), ws.last()),
    decreases ws.len(),
{
    if ws.len() == 1 {
        assert(Seq::<char>::empty() + ws[0] =~= ws[0]);
        assert forall|j: int| 0 <= j < ws[0].len() implies !is_ws(#[trigger] ws[0][j]) by {}
        lemma_word_scan_extend_word(Seq::<char>::empty(), ws[0]);
        assert(word_scan(Seq::<char>::empty()) == (Seq::<Seq<char>>::empty(), Seq::<char>::empty()));
        assert(Seq::<char>::empty() + ws[0] =~= ws[0]);
        assert(ws.drop_last() =~= Seq::<Seq<char>>::empty());
    } else {
        let prev = ws.drop_last();
        assert forall|k: int| 0 <= k < prev.len() implies (#[trigger] prev[k]).len() > 0
            && (forall|j: int| 0 <= j < prev[k].len() ==> !is_ws(#[trigger] prev[k][j])) by {
            assert(prev[k] == ws[k]);
        }
        lemma_word_scan_join(prev);
        let j = join(prev, seq![' ']);
        let w = ws.last();
        assert(w == ws[ws.len() - 1]);
        assert forall|i: int| 0 <= i < w.len() implies !is_ws(#[trigger] w[i]) by {}
        let js = j.push(' ');
        assert(js.drop_last() =~= j);
        assert(js.last() == ' ');
        assert(is_ws(' '));
        assert(prev.last().len() > 0) by {
            assert(prev.last() == prev[prev.len() - 1]);
        }
        assert(word_scan(js) == (prev.drop_last().push(prev.last()), Seq::<char>::empty()));
        assert(prev.drop_last().push(prev.last()) =~= prev);
        lemma_word_scan_extend_word(js, w);
        assert(j + seq![' '] + w =~= js + w);
        assert(Seq::<char>::empty() + w =~= w);
    }
}

/// Splitting joined words gives the words back: whitespace-free, non-empty
/// words joined by single spaces split into exactly those words.
pub proof fn law_words_of_join(ws: Seq<Seq<char>>)
    requires
        words_clean(ws),
    ensures
        words(join(ws, seq![' '])) == ws,
{
    if ws.len() == 0 {
        assert(word_scan(Seq::<char>::empty()) == (Seq::<Seq<char>>::empty(), Seq::<char>::empty()));
    } else {
        lemma_word_scan_join(ws);
        assert(ws.last().len() > 0) by {
            assert(ws.last() == ws[ws.len() - 1]);
        }
        assert(ws.drop_last().push(ws.last()) =~= ws);
    }
}

proof fn lemma_word_scan_append(x: Seq<char>, b: Seq<char>)
    requires
        word_scan(x).1.len() == 0,
    ensures
        word_scan(x + b) == (word_scan(x).0 + word_scan(b).0, word_scan(b).1),
    decreases b.len(),
{
    if b.len() == 0 {
        assert(x + b =~= x);
        assert(word_scan(b) == (Seq::<Seq<char>>::empty(), Seq::<char>::empty()));
        assert(word_scan(x).0 + Seq::<Seq<char>>::empty() =~= word_scan(x).0);
        assert(word_scan(x).1 =~= Seq::<char>::empty());
    } else {
        lemma_word_scan_append(x, b.drop_last());
        assert((x + b).drop_last() =~= x + b.drop_last());
        assert((x + b).last() == b.last());
        let d = word_scan(b.drop_last()).0;
        let c = word_scan(b.drop_last()).1;
        assert(word_scan(x).0 + d.push(c) =~= (word_scan(x).0 + d).push(c));
    }
}

proof fn lemma_words_append_closed(a: Seq<char>, b: Seq<char>)
    requires
        a.len() == 0 || is_ws(a.last()),
    ensures
        words(a + b) == words(a) + words(b),
{
    if a.len() > 0 {
        assert(a.drop_last().push(a.last()) =~= a);
    }
    assert(word_scan(a).1.len() == 0);
    lemma_word_scan_append(a, b);
    let d = word_scan(a).0;
    let e = word_scan(b).0;
    let c = word_scan(b).1;
    assert(words(a) == d);
    assert((d + e).push(c) =~= d + e.push(c));
}

/// A text splits into the words of its two parts when they meet at
/// whitespace: the first part is empty or ends with whitespace, or the
/// second is empty or begins with whitespace.
pub proof fn lemma_words_append(a: Seq<char>, b: Seq<char>)
    requires
        a.len() == 0 || is_ws(a.last()) || b.len() == 0 || is_ws(b[0]),
    ensures
        words(a + b) == words(a) + words(b),
{
    if a.len() == 0 || is_ws(a.last()) {
        lemma_words_append_closed(a, b);
    } else if b.len() == 0 {
        assert(a + b =~= a);
        assert(word_scan(b) == (Seq::<Seq<char>>::empty(), Seq::<char>::empty()));
        assert(words(a) + words(b) =~= words(a));
    } else {
        let a2 = a.push(b[0]);
        let rest = b.drop_first();
        assert(a + b =~= a2 + rest);
        assert(a2.drop_last() =~= a);
        assert(a2.last() == b[0]);
        lemma_words_append_closed(a2, rest);
        assert(words(a2) == words(a));
        let one = seq![b[0]];
        assert(one + rest =~= b);
        assert(one.drop_last() =~= Seq::<char>::empty());
        assert(word_scan(Seq::<char>::empty()) == (Seq::<Seq<char>>::empty(), Seq::<char>::empty()));
        assert(words(one) =~= Seq::<Seq<char>>::empty());
        lemma_words_append_closed(one, rest);
        assert(words(b) =~= words(rest));
    }
}

/// A text without non-whitespace characters has no words.
pub proof fn lemma_words_blank(s: Seq<char>)
    requires
        !has_non_ws(s),
    ensures
        words(s) == Seq::<Seq<char>>::empty(),
{
    lemma_words_nonempty(s);
    assert(words(s) =~= Seq::<Seq<char>>::empty());
}

/// Trimming keeps the words.
pub proof fn lemma_words_trim(p: Seq<char>)
    ensures
        words(trim(p)) == words(p),
{
    lemma_lead_ws_props(p);
    lemma_trail_ws_props(p);
    let a = lead_ws(p) as int;
    let b = p.len() - trail_ws(p);
    if a == p.len() {
        assert(!has_non_ws(p)) by {
            if has_non_ws(p) {
                let i = choose|i: int| 0 <= i < p.len() && !is_ws(#[trigger] p[i]);
                assert(is_ws(p[i]));
            }
        }
        lemma_words_blank(p);
        assert(trim(p) =~= Seq::<char>::empty());
        lemma_words_blank(Seq::<char>::empty());
    } else {
        assert(a < b) by {
            if b <= a {
                assert(is_ws(p[a]));
            }
        }
        let head = p.subrange(0, a);
        let mid = p.subrange(a, b);
        let tail = p.subrange(b, p.len() as int);
        assert(p =~= head + (mid + tail));
        assert(!has_non_ws(head)) by {
            if has_non_ws(head) {
                let i = choose|i: int| 0 <= i < head.len() && !is_ws(#[trigger] head[i]);
                assert(head[i] == p[i]);
            }
        }
        assert(!has_non_ws(tail)) by {
            if has_non_ws(tail) {
                let i = choose|i: int| 0 <= i < tail.len() && !is_ws(#[trigger] tail[i]);
                assert(tail[i] == p[b + i]);
            }
        }
        lemma_words_blank(head);
        lemma_words_blank(tail);
        if head.len() > 0 {
            assert(head.last() == p[a - 1]);
        }
        lemma_words_append(head, mid + tail);
        if tail.len() > 0 {
            assert(tail[0] == p[b]);
        }
        lemma_words_append(mid, tail);
        assert(words(p) =~= words(mid));
        assert(trim(p) == mid);
    }
}

/// Splits a character sequence into whitespace-separated words.
pub fn split_words(v: &Vec<char>) -> (r: Vec<Vec<char>>)
    ensures
        r.deep_view() == words(v@),
{
    let mut done: Vec<Vec<char>> = Vec::new();
    let mut cur: Vec<char> = Vec::new();
    let mut i: usize = 0;
    while i < v.len()
        invariant
            i <= v.len(),
            (done.deep_view(), cur@) == word_scan(v@.take(i as int)),
        decreases v.len() - i,
    {
        let c = v[i];
        proof {
            let p = v@.take(i as int + 1);
            assert(p.drop_last() == v@.take(i as int));
            assert(p.last() == c);
        }
        if is_whitespace(c) {
            if cur.len() > 0 {
                let ghost old_dv = done.deep_view();
                assert(cur.deep_view() =~= cur@);
                let w = cur;
                done.push(w);
                assert(done.deep_view() =~= old_dv.push(w@));
                cur = Vec::new();
            }
        } else {
            cur.push(c);
        }
        i = i + 1;
    }
    assert(v@.take(v.len() as int) == v@);
    if cur.len() > 0 {
        let ghost old_dv = done.deep_view();
        assert(cur.deep_view() =~= cur@);
        let ghost cv = cur@;
        done.push(cur);
        assert(done.deep_view() =~= old_dv.push(cv));
    }
    assert(done.deep_view() =~= words(v@));
    done
}

/// Joins `ws[from..]` with single spaces.
pub fn join_words(ws: &Vec<Vec<char>>, from: usize) -> (r: Vec<char>)
    requires
        from <= ws.len(),
    ensures
        r@ == join(ws.deep_view().skip(from as int), seq![' ']),
{
    let mut r: Vec<char> = Vec::new();
    let mut k: usize = from;
    while k < ws.len()
        invariant
            from <= k <= ws.len(),
            r@ == join(ws.deep_view().subrange(from as int, k as int), seq![' ']),
        decreases ws.len() - k,
    {
        let ghost prev = ws.deep_view().subrange(from as int, k as int);
        let ghost next = ws.deep_view().subrange(from as int, k + 1);
        assert(next.drop_last() == prev);
        if k > from {
            r.push(' ');
        }
        let w = &ws[k];
        let mut j: usize = 0;
        let ghost base = r@;
        while j < w.len()
            invariant
                j <= w.len(),
                r@ == base + w@.take(j as int),
            decreases w.len() - j,
        {
            r.push(w[j]);
            j = j + 1;
            assert(r@ =~= base + w@.take(j as int));
        }
        assert(w@.take(w.len() as int) == w@);
        assert(next.last() == w@);
        k = k + 1;
        assert(r@ =~= join(ws.deep_view().subrange(from as int, k as int), seq![' ']));
    }
    assert(ws.deep_view().subrange(from as int, ws.len() as int) == ws.deep_view().skip(
        from as int,
    ));
    r
}

/// Collapses whitespace runs to single spaces and trims the ends.
pub fn normalize_whitespace(v: &Vec<char>) -> (r: Vec<char>)
    ensures
        r@ == normalize_ws(v@),
{
    let ws = split_words(v);
    let r = join_words(&ws, 0);
    assert(ws.deep_view().skip(0) == ws.deep_view());
    r
}

/// The decimal digit for `d < 10`.
pub open spec fn digit(d: nat) -> char {
    if d == 0 {
        '0'
    } else if d == 1 {
        '1'
    } else if d == 2 {
        '2'
    } else if d == 3 {
        '3'
    } else if d == 4 {
        '4'
    } else if d == 5 {
        '5'
    } else if d == 6 {
        '6'
    } else if d == 7 {
        '7'
    } else if d == 8 {
        '8'
    } else {
        '9'
    }
}

/// The decimal rendering of a natural number, as `Display` for integers writes it.
pub open spec fn decimal(n: nat) -> Seq<char>
    decreases n,
{
    if n < 10 {
        seq![digit(n)]
    } else {
        decimal(n / 10).push(digit(n % 10))
    }
}

fn digit_char(d: u64) -> (c: char)
    requires
        d < 10,
    ensures
        c == digit(d as nat),
{
    if d == 0 {
        '0'
    } else if d == 1 {
        '1'
    } else if d == 2 {
        '2'
    } else if d == 3 {
        '3'
    } else if d == 4 {
        '4'
    } else if d == 5 {
        '5'
    } else if d == 6 {
        '6'
    } else if d == 7 {
        '7'
    } else if d == 8 {
        '8'
    } else {
        '9'
    }
}

/// Appends the decimal rendering of `n` to `out`.
pub fn push_decimal(out: &mut Vec<char>, n: u64)
    ensures
        final(out)@ == old(out)@ + decimal(n as nat),
    decreases n,
{
    if n < 10 {
        out.push(digit_char(n));
    } else {
        push_decimal(out, n / 10);
        out.push(digit_char(n % 10));
    }
}

/// Appends the characters of a string to `out`.
pub fn push_str_chars(out: &mut Vec<char>, s: &str)
    ensures
        final(out)@ == old(out)@ + s@,
{
    let v = to_chars(s);
    let mut i: usize = 0;
    let ghost base = out@;
    while i < v.len()
        invariant
            i <= v.len(),
            out@ == base + v@.take(i as int),
        decreases v.len() - i,
    {
        out.push(v[i]);
        i = i + 1;
        assert(out@ =~= base + v@.take(i as int));
    }
    assert(v@.take(v.len() as int) == v@);
}

} // verus!
