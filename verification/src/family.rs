//! Producer *families*.
//!
//! The coverage gate counts families, not strings. "InDesign 17" and
//! "InDesign 19" are one toolchain wearing two labels, so a string count
//! overstates diversity.
//!
//! Classification is by known-toolchain substring first, then by a
//! version-stripped fallback for anything unrecognised. An unrecognised
//! producer becomes its own family under a cleaned-up name, which
//! over-counts diversity slightly rather than merging two genuinely different
//! toolchains into one.

use vstd::prelude::*;
use crate::text::{is_ws, is_ws_exec, blank, is_blank, contains_chars_ci, contains_chars_ci_exec,
    chars_of};

verus! {

/// The label used when a package declares no producer at all.
pub const UNDECLARED: &'static str = "(undeclared)";

/// Whether a character is alphanumeric in Unicode's sense (`Alphabetic` or
/// `Numeric`). Named rather than written out: the tables are std's.
pub uninterp spec fn alphanumeric(c: char) -> bool;

/// An ASCII letter or digit.
pub open spec fn ascii_alphanumeric(c: char) -> bool {
    ('a' <= c && c <= 'z') || ('A' <= c && c <= 'Z') || ('0' <= c && c <= '9')
}

/// `char::is_alphanumeric`. What it returns is named by [`alphanumeric`]:
/// a fixed property of the character, from std's Unicode tables, which this
/// contract does not restate beyond ASCII, where std documents it: an ASCII
/// character is alphanumeric exactly when it is a letter or a digit.
#[verifier::external_body]
fn is_alphanumeric(c: char) -> (r: bool)
    ensures
        r == alphanumeric(c),
        (c as u32) < 128 ==> (r <==> ascii_alphanumeric(c)),
{
    c.is_alphanumeric()
}

/// Substring needles, matched ignoring ASCII case, most specific first.
pub open spec fn known_needle(k: int) -> Seq<char> {
    if k == 0 { "adobe indesign"@ }
    else if k == 1 { "indesign"@ }
    else if k == 2 { "sigil"@ }
    else if k == 3 { "calibre"@ }
    else if k == 4 { "ebookmaker"@ }
    else if k == 5 { "project gutenberg"@ }
    else if k == 6 { "standard ebooks"@ }
    else if k == 7 { "vellum"@ }
    else if k == 8 { "pressbooks"@ }
    else if k == 9 { "pages"@ }
    else if k == 10 { "ibooks author"@ }
    else if k == 11 { "kindlegen"@ }
    else if k == 12 { "jutoh"@ }
    else if k == 13 { "pubcoder"@ }
    else if k == 14 { "atlantis"@ }
    else { "pandoc"@ }
}

/// The family each needle names.
pub open spec fn known_family(k: int) -> Seq<char> {
    if k == 0 || k == 1 { "InDesign"@ }
    else if k == 2 { "Sigil"@ }
    else if k == 3 { "calibre"@ }
    else if k == 4 || k == 5 { "ebookmaker (Gutenberg)"@ }
    else if k == 6 { "Standard Ebooks"@ }
    else if k == 7 { "Vellum"@ }
    else if k == 8 { "Pressbooks"@ }
    else if k == 9 { "Apple Pages"@ }
    else if k == 10 { "iBooks Author"@ }
    else if k == 11 { "KindleGen"@ }
    else if k == 12 { "Jutoh"@ }
    else if k == 13 { "PubCoder"@ }
    else if k == 14 { "Atlantis"@ }
    else { "Pandoc"@ }
}

fn known_entry(k: usize) -> (r: (&'static str, &'static str))
    requires
        k < 16,
    ensures
        r.0@ == known_needle(k as int),
        r.1@ == known_family(k as int),
{
    if k == 0 { ("adobe indesign", "InDesign") }
    else if k == 1 { ("indesign", "InDesign") }
    else if k == 2 { ("sigil", "Sigil") }
    else if k == 3 { ("calibre", "calibre") }
    else if k == 4 { ("ebookmaker", "ebookmaker (Gutenberg)") }
    else if k == 5 { ("project gutenberg", "ebookmaker (Gutenberg)") }
    else if k == 6 { ("standard ebooks", "Standard Ebooks") }
    else if k == 7 { ("vellum", "Vellum") }
    else if k == 8 { ("pressbooks", "Pressbooks") }
    else if k == 9 { ("pages", "Apple Pages") }
    else if k == 10 { ("ibooks author", "iBooks Author") }
    else if k == 11 { ("kindlegen", "KindleGen") }
    else if k == 12 { ("jutoh", "Jutoh") }
    else if k == 13 { ("pubcoder", "PubCoder") }
    else if k == 14 { ("atlantis", "Atlantis") }
    else { ("pandoc", "Pandoc") }
}

/// The first known toolchain, from needle `k` on, whose needle occurs in the
/// producer string.
pub open spec fn known_from(raw: Seq<char>, k: int) -> Option<Seq<char>>
    decreases 16 - k,
{
    if k >= 16 || k < 0 {
        None
    } else if contains_chars_ci(raw, known_needle(k)) {
        Some(known_family(k))
    } else {
        known_from(raw, k + 1)
    }
}

// ---------------------------------------------------------------------------
// Trimming and splitting, on characters
// ---------------------------------------------------------------------------

/// Whether a character is alphanumeric: an ASCII letter or digit, or beyond
/// ASCII, alphanumeric in Unicode's sense.
pub open spec fn alnum(c: char) -> bool {
    if (c as u32) < 128 { ascii_alphanumeric(c) } else { alphanumeric(c) }
}

fn is_alnum(c: char) -> (r: bool)
    ensures
        r == alnum(c),
{
    if (c as u32) < 128 {
        ('a' <= c && c <= 'z') || ('A' <= c && c <= 'Z') || ('0' <= c && c <= '9')
    } else {
        is_alphanumeric(c)
    }
}

/// Which characters a trim keeps: not whitespace (mode 0), alphanumeric
/// (mode 1), alphanumeric or `.` (mode 2).
pub open spec fn kept(mode: int, c: char) -> bool {
    if mode == 0 {
        !is_ws(c)
    } else if mode == 1 {
        alnum(c)
    } else {
        alnum(c) || c == '.'
    }
}

/// The first kept position at or after `i`, or the end.
pub open spec fn first_kept(mode: int, s: Seq<char>, i: int) -> int
    decreases s.len() - i,
{
    if i >= s.len() || i < 0 {
        s.len() as int
    } else if kept(mode, s[i]) {
        i
    } else {
        first_kept(mode, s, i + 1)
    }
}

/// One past the last kept position before `j`, or 0.
pub open spec fn last_kept(mode: int, s: Seq<char>, j: int) -> int
    decreases j,
{
    if j <= 0 || j > s.len() {
        0
    } else if kept(mode, s[j - 1]) {
        j
    } else {
        last_kept(mode, s, j - 1)
    }
}

/// `s` with unkept characters removed from both ends.
pub open spec fn trim_by(mode: int, s: Seq<char>) -> Seq<char> {
    let a = first_kept(mode, s, 0);
    let b = last_kept(mode, s, s.len() as int);
    if a < b { s.subrange(a, b) } else { Seq::empty() }
}

proof fn lemma_first_kept(mode: int, s: Seq<char>, i: int)
    requires
        0 <= i <= s.len(),
    ensures
        i <= first_kept(mode, s, i) <= s.len(),
    decreases s.len() - i,
{
    if i < s.len() && !kept(mode, s[i]) {
        lemma_first_kept(mode, s, i + 1);
    }
}

proof fn lemma_last_kept(mode: int, s: Seq<char>, j: int)
    requires
        0 <= j <= s.len(),
    ensures
        0 <= last_kept(mode, s, j) <= j,
    decreases j,
{
    if j > 0 && !kept(mode, s[j - 1]) {
        lemma_last_kept(mode, s, j - 1);
    }
}

fn kept_exec(mode: u8, c: char) -> (r: bool)
    ensures
        r == kept(mode as int, c),
{
    if mode == 0 {
        !is_ws_exec(c)
    } else if mode == 1 {
        is_alnum(c)
    } else {
        is_alnum(c) || c == '.'
    }
}

/// The bounds of the kept middle of `s`.
fn trim_bounds(mode: u8, s: &Vec<char>) -> (r: (usize, usize))
    ensures
        r.0 as int == first_kept(mode as int, s@, 0),
        r.1 as int == last_kept(mode as int, s@, s@.len() as int),
        r.0 <= s@.len(),
        r.1 <= s@.len(),
{
    let mut a: usize = 0;
    while a < s.len() && !kept_exec(mode, s[a])
        invariant
            a <= s@.len(),
            first_kept(mode as int, s@, a as int) == first_kept(mode as int, s@, 0),
        decreases s@.len() - a,
    {
        a = a + 1;
    }
    let mut b: usize = s.len();
    while b > 0 && !kept_exec(mode, s[b - 1])
        invariant
            b <= s@.len(),
            last_kept(mode as int, s@, b as int) == last_kept(mode as int, s@, s@.len() as int),
        decreases b,
    {
        b = b - 1;
    }
    (a, b)
}

/// A string with unkept characters removed from both ends.
pub(crate) fn trim_string(mode: u8, s: &str) -> (r: String)
    ensures
        r@ == trim_by(mode as int, s@),
{
    let cs = chars_of(s);
    let (a, b) = trim_bounds(mode, &cs);
    if a < b {
        s.substring_char(a, b).to_owned()
    } else {
        String::new()
    }
}

/// Where the token starting at `k` ends: the next whitespace or the end.
pub open spec fn word_end(s: Seq<char>, k: int) -> int
    decreases s.len() - k,
{
    if k >= s.len() || k < 0 {
        s.len() as int
    } else if is_ws(s[k]) {
        k
    } else {
        word_end(s, k + 1)
    }
}

/// The whitespace-separated words of `s` from position `k` on.
pub open spec fn words_from(s: Seq<char>, k: int) -> Seq<Seq<char>>
    decreases s.len() - k,
{
    if k >= s.len() || k < 0 {
        Seq::empty()
    } else if is_ws(s[k]) {
        words_from(s, k + 1)
    } else {
        let e = word_end(s, k);
        if e <= k || e > s.len() {
            Seq::empty()
        } else {
            seq![s.subrange(k, e)] + words_from(s, e)
        }
    }
}

proof fn lemma_word_end(s: Seq<char>, k: int)
    requires
        0 <= k <= s.len(),
    ensures
        k <= word_end(s, k) <= s.len(),
    decreases s.len() - k,
{
    if k < s.len() && !is_ws(s[k]) {
        lemma_word_end(s, k + 1);
    }
}

/// A token looks like a version: once trimmed of everything but
/// alphanumerics and dots, it starts with a digit, or with `v` and a digit.
pub open spec fn looks_like_version(token: Seq<char>) -> bool {
    let t = trim_by(2, token);
    (t.len() > 0 && '0' <= t[0] <= '9') || (t.len() >= 2 && t[0] == 'v' && '0' <= t[1] <= '9')
}

/// The words before the first one that looks like a version.
pub open spec fn before_version(ws: Seq<Seq<char>>) -> Seq<Seq<char>>
    decreases ws.len(),
{
    if ws.len() == 0 || looks_like_version(ws[0]) {
        Seq::empty()
    } else {
        seq![ws[0]] + before_version(ws.drop_first())
    }
}

/// Words joined by single spaces.
pub open spec fn join_words(ws: Seq<Seq<char>>) -> Seq<char>
    decreases ws.len(),
{
    if ws.len() == 0 {
        Seq::empty()
    } else if ws.len() == 1 {
        ws[0]
    } else {
        join_words(ws.drop_last()) + " "@ + ws.last()
    }
}

/// The fallback for unrecognised producers: drop the words from the first
/// version-looking one on, keep the rest joined by single spaces, and trim
/// non-alphanumerics from both ends. A name that trims to nothing falls
/// back to the whitespace-trimmed raw string.
pub open spec fn strip_version(raw: Seq<char>) -> Seq<char> {
    let kept_words = before_version(words_from(raw, 0));
    let name = if kept_words.len() == 0 { trim_by(0, raw) } else { join_words(kept_words) };
    let trimmed = trim_by(0, trim_by(1, name));
    if trimmed.len() == 0 { trim_by(0, raw) } else { trimmed }
}

/// The family of a producer string: `(undeclared)` when there is none or it
/// is blank, the known toolchain whose needle it contains, or else its
/// version-stripped name.
pub open spec fn family_of(producer: Option<Seq<char>>) -> Seq<char> {
    match producer {
        None => "(undeclared)"@,
        Some(raw) => if blank(raw) {
            "(undeclared)"@
        } else {
            match known_from(raw, 0) {
                Some(f) => f,
                None => strip_version(raw),
            }
        },
    }
}

fn looks_like_version_exec(token: &str) -> (r: bool)
    ensures
        r == looks_like_version(token@),
{
    let t = trim_string(2, token);
    let n = t.as_str().unicode_len();
    if n > 0 {
        let c0 = t.as_str().get_char(0);
        if '0' <= c0 && c0 <= '9' {
            return true;
        }
        if n >= 2 && c0 == 'v' {
            let c1 = t.as_str().get_char(1);
            return '0' <= c1 && c1 <= '9';
        }
    }
    false
}

fn strip_version_exec(raw: &str) -> (r: String)
    ensures
        r@ == strip_version(raw@),
{
    let cs = chars_of(raw);
    let ghost all = words_from(raw@, 0);
    let mut name = String::new();
    let mut count: usize = 0;
    let mut k: usize = 0;
    let mut stopped = false;
    let ghost mut taken: Seq<Seq<char>> = Seq::empty();
    while k < cs.len()
        invariant
            cs@ == raw@,
            all == words_from(raw@, 0),
            k <= cs@.len(),
            !stopped ==> before_version(all) == taken + before_version(words_from(raw@, k as int)),
            stopped ==> k == cs@.len(),
            stopped ==> before_version(all) == taken,
            count == taken.len(),
            count <= k,
            name@ == join_words(taken),
        decreases cs@.len() - k,
    {
        if is_ws_exec(cs[k]) {
            k = k + 1;
        } else {
            let mut e = k;
            while e < cs.len() && !is_ws_exec(cs[e])
                invariant
                    cs@ == raw@,
                    k <= e <= cs@.len(),
                    word_end(raw@, e as int) == word_end(raw@, k as int),
                decreases cs@.len() - e,
            {
                e = e + 1;
            }
            proof {
                lemma_word_end(raw@, k as int + 1);
            }
            let word = raw.substring_char(k, e);
            assert(words_from(raw@, k as int) == seq![raw@.subrange(k as int, e as int)] + words_from(raw@, e as int));
            assert(seq![raw@.subrange(k as int, e as int)] + words_from(raw@, e as int) =~= seq![word@] + words_from(raw@, e as int));
            if looks_like_version_exec(word) {
                stopped = true;
                k = cs.len();
                proof {
                    assert(before_version(seq![word@] + words_from(raw@, e as int)) =~= Seq::<Seq<char>>::empty());
                    assert(taken + Seq::<Seq<char>>::empty() =~= taken);
                }
            } else {
                proof {
                    let rest = words_from(raw@, e as int);
                    assert((seq![word@] + rest).drop_first() =~= rest);
                    assert(before_version(seq![word@] + rest) == seq![word@] + before_version(rest));
                    assert(taken + (seq![word@] + before_version(rest)) =~= taken.push(word@) + before_version(rest));
                    assert(taken.push(word@).drop_last() =~= taken);
                }
                if count > 0 {
                    name.append(" ");
                }
                name.append(word);
                proof {
                    taken = taken.push(word@);
                }
                count = count + 1;
                k = e;
            }
        }
    }
    proof {
        if !stopped {
            assert(words_from(raw@, k as int) =~= Seq::<Seq<char>>::empty());
            assert(taken + Seq::<Seq<char>>::empty() =~= taken);
        }
    }
    let base = if count == 0 { trim_string(0, raw) } else { name };
    let alnum = trim_string(1, base.as_str());
    let trimmed = trim_string(0, alnum.as_str());
    if trimmed.as_str().unicode_len() == 0 {
        trim_string(0, raw)
    } else {
        trimmed
    }
}

/// Map a producer string to its family.
pub fn classify(producer: Option<&str>) -> (r: String)
    ensures
        r@ == family_of(match producer {
            Some(p) => Some(p@),
            None => None,
        }),
{
    match producer {
        None => UNDECLARED.to_owned(),
        Some(raw) => {
            if is_blank(raw) {
                return UNDECLARED.to_owned();
            }
            let cs = chars_of(raw);
            let mut k: usize = 0;
            while k < 16
                invariant
                    cs@ == raw@,
                    producer == Some(raw),
                    !blank(raw@),
                    k <= 16,
                    known_from(raw@, k as int) == known_from(raw@, 0),
                decreases 16 - k,
            {
                let entry = known_entry(k);
                if contains_chars_ci_exec(&cs, entry.0) {
                    assert(known_from(raw@, k as int) == Some(known_family(k as int)));
                    assert(!blank(raw@));
                    let r = entry.1.to_owned();
                    assert(r@ == known_family(k as int));
                    return r;
                }
                k = k + 1;
            }
            strip_version_exec(raw)
        },
    }
}

/// A kept character at `i` keeps everything up to it from a trim ending
/// after it.
proof fn lemma_last_kept_reaches(mode: int, s: Seq<char>, i: int, j: int)
    requires
        0 <= i < j <= s.len(),
        kept(mode, s[i]),
    ensures
        last_kept(mode, s, j) >= i + 1,
    decreases j,
{
    if !kept(mode, s[j - 1]) {
        lemma_last_kept_reaches(mode, s, i, j - 1);
    }
}

/// A string whose first character is kept trims to something that starts
/// with it.
proof fn lemma_trim_keeps_first(mode: int, s: Seq<char>)
    requires
        s.len() > 0,
        kept(mode, s[0]),
    ensures
        trim_by(mode, s).len() > 0,
        trim_by(mode, s)[0] == s[0],
{
    lemma_last_kept_reaches(mode, s, 0, s.len() as int);
    lemma_last_kept(mode, s, s.len() as int);
}

/// A token of `v` and a digit-led rest looks like a version.
pub proof fn law_a_v_numbered_token_is_a_version(d: Seq<char>)
    requires
        d.len() > 0,
        '0' <= d[0] <= '9',
    ensures
        looks_like_version(seq!['v'] + d),
{
    let x = seq!['v'] + d;
    assert(x[0] == 'v' && x[1] == d[0]);
    assert(kept(2, x[0]));
    assert(kept(2, x[1]));
    lemma_last_kept_reaches(2, x, 1, x.len() as int);
    lemma_last_kept(2, x, x.len() as int);
    let t = trim_by(2, x);
    assert(t.len() >= 2 && t[0] == 'v' && t[1] == d[0]);
}

/// Where a token ends is unchanged by a space and more text after `s`.
proof fn lemma_word_end_ext(s: Seq<char>, w: Seq<char>, k: int)
    requires
        0 <= k <= s.len(),
    ensures
        word_end(s + seq![' '] + w, k) == word_end(s, k),
    decreases s.len() - k,
{
    let full = s + seq![' '] + w;
    if k < s.len() {
        assert(full[k] == s[k]);
        if !is_ws(s[k]) {
            lemma_word_end_ext(s, w, k + 1);
        }
    } else {
        assert(full[k] == ' ');
    }
}

/// A token with no whitespace runs to the end.
proof fn lemma_word_end_tail(s: Seq<char>, j: int)
    requires
        0 <= j <= s.len(),
        forall|i: int| j <= i < s.len() ==> !is_ws(#[trigger] s[i]),
    ensures
        word_end(s, j) == s.len(),
    decreases s.len() - j,
{
    if j < s.len() {
        lemma_word_end_tail(s, j + 1);
    }
}

/// A space and one more whitespace-free word after `s` add that word to its
/// words.
proof fn lemma_words_ext(s: Seq<char>, w: Seq<char>, k: int)
    requires
        0 <= k <= s.len(),
        w.len() > 0,
        forall|i: int| 0 <= i < w.len() ==> !is_ws(#[trigger] w[i]),
    ensures
        words_from(s + seq![' '] + w, k) == words_from(s, k).push(w),
    decreases s.len() - k,
{
    let full = s + seq![' '] + w;
    let m = s.len() as int;
    if k == m {
        assert(full[k] == ' ');
        assert(is_ws(' '));
        assert forall|i: int| m + 1 <= i < full.len() implies !is_ws(#[trigger] full[i]) by {
            assert(full[i] == w[i - m - 1]);
        }
        lemma_word_end_tail(full, m + 1);
        assert(full[m + 1] == w[0]);
        assert(full.subrange(m + 1, full.len() as int) =~= w);
        assert(words_from(full, full.len() as int) =~= Seq::<Seq<char>>::empty());
        assert(words_from(full, m + 1) =~= seq![w]);
        assert(words_from(s, m) =~= Seq::<Seq<char>>::empty());
        assert(words_from(s, m).push(w) =~= seq![w]);
    } else {
        assert(full[k] == s[k]);
        if is_ws(s[k]) {
            lemma_words_ext(s, w, k + 1);
        } else {
            lemma_word_end_ext(s, w, k);
            lemma_word_end(s, k + 1);
            let e = word_end(s, k);
            assert(e == word_end(s, k + 1));
            assert(k < e <= m);
            lemma_words_ext(s, w, e);
            assert(full.subrange(k, e) =~= s.subrange(k, e));
            assert(seq![s.subrange(k, e)] + words_from(s, e).push(w) =~= (seq![s.subrange(k, e)] + words_from(s, e)).push(w));
        }
    }
}

/// Words none of which looks like a version are all kept.
proof fn lemma_before_all(ws: Seq<Seq<char>>)
    requires
        forall|i: int| 0 <= i < ws.len() ==> !looks_like_version(#[trigger] ws[i]),
    ensures
        before_version(ws) == ws,
    decreases ws.len(),
{
    if ws.len() > 0 {
        lemma_before_all(ws.drop_first());
        assert(seq![ws[0]] + ws.drop_first() =~= ws);
    }
}

/// A version after words none of which looks like one cuts only itself.
proof fn lemma_before_push(ws: Seq<Seq<char>>, v: Seq<char>)
    requires
        forall|i: int| 0 <= i < ws.len() ==> !looks_like_version(#[trigger] ws[i]),
        looks_like_version(v),
    ensures
        before_version(ws.push(v)) == ws,
    decreases ws.len(),
{
    if ws.len() == 0 {
        assert(ws.push(v)[0] == v);
    } else {
        assert(ws.push(v)[0] == ws[0]);
        assert(ws.push(v).drop_first() =~= ws.drop_first().push(v));
        lemma_before_push(ws.drop_first(), v);
        assert(seq![ws[0]] + ws.drop_first() =~= ws);
    }
}

/// Joined words start with the first word's first character.
proof fn lemma_join_first(ws: Seq<Seq<char>>)
    requires
        ws.len() > 0,
        ws[0].len() > 0,
    ensures
        join_words(ws).len() > 0,
        join_words(ws)[0] == ws[0][0],
    decreases ws.len(),
{
    if ws.len() > 1 {
        assert(ws.drop_last()[0] == ws[0]);
        lemma_join_first(ws.drop_last());
    }
}

/// A version numbered with a `v` does not split a family: an unrecognised
/// producer name that opens with an ASCII letter and holds no version-like
/// word is the family of itself followed by ` v` and any digit-led version.
pub proof fn law_a_v_version_keeps_the_family(n: Seq<char>, d: Seq<char>)
    requires
        n.len() > 0,
        ascii_alphanumeric(n[0]),
        forall|i: int| 0 <= i < words_from(n, 0).len() ==> !looks_like_version(#[trigger] words_from(n, 0)[i]),
        d.len() > 0,
        '0' <= d[0] <= '9',
        forall|i: int| 0 <= i < d.len() ==> !is_ws(#[trigger] d[i]),
        known_from(n, 0) is None,
        known_from(n + seq![' ', 'v'] + d, 0) is None,
    ensures
        family_of(Some(n + seq![' ', 'v'] + d)) == family_of(Some(n)),
{
    let w = seq!['v'] + d;
    let full = n + seq![' '] + w;
    assert(n + seq![' ', 'v'] + d =~= full);
    assert(!is_ws(n[0]));
    assert(full[0] == n[0]);
    assert(!blank(n));
    assert(!blank(full));
    assert forall|i: int| 0 <= i < w.len() implies !is_ws(#[trigger] w[i]) by {
        if i > 0 {
            assert(w[i] == d[i - 1]);
        }
    }
    lemma_words_ext(n, w, 0);
    law_a_v_numbered_token_is_a_version(d);
    let ws = words_from(n, 0);
    lemma_before_push(ws, w);
    lemma_before_all(ws);
    // The name's first word starts at the first character.
    lemma_word_end(n, 1);
    let e = word_end(n, 0);
    assert(e == word_end(n, 1) && 1 <= e <= n.len());
    assert(ws[0] == n.subrange(0, e));
    lemma_join_first(ws);
    let name = join_words(ws);
    assert(name[0] == n[0]);
    assert(kept(1, name[0]));
    lemma_trim_keeps_first(1, name);
    let t1 = trim_by(1, name);
    assert(kept(0, t1[0]));
    lemma_trim_keeps_first(0, t1);
}

} // verus!
