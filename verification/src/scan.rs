//! Scans behind three of the detectors: processing instructions, namespace
//! prefixes, and attribute order.
//!
//! Each works on bytes. Whitespace is Unicode `White_Space`, recognised by its
//! UTF-8 encoding; every encoding starts with a byte below 0x80 or a lead
//! byte, so a match in the raw bytes is a whitespace character of the decoded
//! text and never the tail of another character.

use vstd::prelude::*;
use vstd::slice::slice_subrange;
use crate::text::{occurs_at, occurs_at_exec, occurs_at_ci, occurs_at_ci_exec, find_from,
    first_at_or_after, bytes_eq};

verus! {

// ---------------------------------------------------------------------------
// Whitespace, as UTF-8 bytes
// ---------------------------------------------------------------------------

/// Whether a byte is an ASCII whitespace character.
pub open spec fn ascii_ws(b: u8) -> bool {
    (9 <= b <= 13) || b == 32
}

/// Whether three bytes encode a multi-byte whitespace character of width 3.
pub open spec fn ws3(a: u8, b: u8, c: u8) -> bool {
    (a == 0xE1 && b == 0x9A && c == 0x80) || (a == 0xE2 && b == 0x80 && ((0x80 <= c <= 0x8A) || c
        == 0xA8 || c == 0xA9 || c == 0xAF)) || (a == 0xE2 && b == 0x81 && c == 0x9F) || (a == 0xE3
        && b == 0x80 && c == 0x80)
}

/// Whether two bytes encode a whitespace character of width 2.
pub open spec fn ws2(a: u8, b: u8) -> bool {
    a == 0xC2 && (b == 0x85 || b == 0xA0)
}

/// Length of the whitespace character encoded at `k`, or 0 when none is.
pub open spec fn ws_len_at(d: Seq<u8>, k: int) -> int {
    if 0 <= k < d.len() && ascii_ws(d[k]) {
        1
    } else if 0 <= k && k + 2 <= d.len() && ws2(d[k], d[k + 1]) {
        2
    } else if 0 <= k && k + 3 <= d.len() && ws3(d[k], d[k + 1], d[k + 2]) {
        3
    } else {
        0
    }
}

/// Whether the bytes just before `i` encode a whitespace character.
pub open spec fn ws_ends_at(d: Seq<u8>, i: int) -> bool {
    (1 <= i <= d.len() && ascii_ws(d[i - 1])) || (2 <= i <= d.len() && ws2(d[i - 2], d[i - 1])) || (3
        <= i <= d.len() && ws3(d[i - 3], d[i - 2], d[i - 1]))
}

/// Length of the whitespace character encoded at `k`, or 0.
pub fn ws_len_at_exec(d: &[u8], k: usize) -> (r: usize)
    ensures
        r as int == ws_len_at(d@, k as int),
        r <= 3,
{
    let n = d.len();
    if k < n && ((9 <= d[k] && d[k] <= 13) || d[k] == 32) {
        1
    } else if k < n && n - k >= 2 && d[k] == 0xC2 && (d[k + 1] == 0x85 || d[k + 1] == 0xA0) {
        2
    } else if k < n && n - k >= 3 && ((d[k] == 0xE1 && d[k + 1] == 0x9A && d[k + 2] == 0x80) || (
    d[k] == 0xE2 && d[k + 1] == 0x80 && ((0x80 <= d[k + 2] && d[k + 2] <= 0x8A) || d[k + 2]
        == 0xA8 || d[k + 2] == 0xA9 || d[k + 2] == 0xAF)) || (d[k] == 0xE2 && d[k + 1] == 0x81
        && d[k + 2] == 0x9F) || (d[k] == 0xE3 && d[k + 1] == 0x80 && d[k + 2] == 0x80)) {
        3
    } else {
        0
    }
}

/// Whether the bytes just before `i` encode a whitespace character.
pub fn ws_ends_at_exec(d: &[u8], i: usize) -> (r: bool)
    requires
        i <= d@.len(),
    ensures
        r == ws_ends_at(d@, i as int),
{
    (1 <= i && ((9 <= d[i - 1] && d[i - 1] <= 13) || d[i - 1] == 32)) || (2 <= i && d[i - 2] == 0xC2
        && (d[i - 1] == 0x85 || d[i - 1] == 0xA0)) || (3 <= i && ((d[i - 3] == 0xE1 && d[i - 2]
        == 0x9A && d[i - 1] == 0x80) || (d[i - 3] == 0xE2 && d[i - 2] == 0x80 && ((0x80 <= d[i - 1]
        && d[i - 1] <= 0x8A) || d[i - 1] == 0xA8 || d[i - 1] == 0xA9 || d[i - 1] == 0xAF)) || (d[i
        - 3] == 0xE2 && d[i - 2] == 0x81 && d[i - 1] == 0x9F) || (d[i - 3] == 0xE3 && d[i - 2]
        == 0x80 && d[i - 1] == 0x80)))
}

// ---------------------------------------------------------------------------
// Processing instructions
// ---------------------------------------------------------------------------

/// Some `<?` opens something other than the XML declaration `<?xml `
/// (compared ignoring ASCII case).
pub open spec fn has_pi(d: Seq<u8>) -> bool {
    exists|i: int| occurs_at(d, ascii_bytes("<?"@), i) && !occurs_at_ci(d, ascii_bytes("<?xml "@), i)
}

/// The bytes of an ASCII string literal.
pub open spec fn ascii_bytes(s: Seq<char>) -> Seq<u8> {
    s.map_values(|c: char| c as u8)
}

/// Whether the text holds a processing instruction.
pub fn has_pi_exec(d: &[u8]) -> (r: bool)
    ensures
        r == has_pi(d@),
{
    proof {
        reveal_strlit("<?");
        reveal_strlit("<?xml ");
    }
    let open = lit_bytes("<?");
    let decl = lit_bytes("<?xml ");
    let mut i: usize = 0;
    while i < d.len()
        invariant
            open@ == ascii_bytes("<?"@),
            decl@ == ascii_bytes("<?xml "@),
            i <= d@.len(),
            forall|j: int|
                0 <= j < i ==> !(occurs_at(d@, open@, j) && !occurs_at_ci(d@, decl@, j)),
        decreases d@.len() - i,
    {
        if occurs_at_exec(d, open.as_slice(), i) && !occurs_at_ci_exec(d, decl.as_slice(), i) {
            return true;
        }
        i = i + 1;
    }
    assert forall|j: int| !(occurs_at(d@, open@, j) && !occurs_at_ci(d@, decl@, j)) by {
        if j >= i {
            assert(!occurs_at(d@, open@, j));
        }
    }
    false
}

// ---------------------------------------------------------------------------
// Namespace prefixes
// ---------------------------------------------------------------------------

/// Where a declaration's name stops: at `=`, whitespace, or the end.
pub open spec fn stop_at(d: Seq<u8>, k: int) -> bool {
    k == d.len() || (0 <= k < d.len() && d[k] == 61) || ws_len_at(d, k) > 0
}

/// `j` is the first stop at or after `i`.
pub open spec fn first_stop(d: Seq<u8>, i: int, j: int) -> bool {
    i <= j <= d.len() && stop_at(d, j) && forall|k: int| i <= k < j ==> !stop_at(d, k)
}

/// Prefixes of the EPUB set, whose declarations are not uncommon.
pub open spec fn known_prefix(decl: Seq<u8>) -> bool {
    decl == ascii_bytes("xmlns:dc"@) || decl == ascii_bytes("xmlns:opf"@) || decl == ascii_bytes(
        "xmlns:epub"@,
    ) || decl == ascii_bytes("xmlns:xsi"@) || decl == ascii_bytes("xmlns:xml"@) || decl
        == ascii_bytes("xmlns:m"@) || decl == ascii_bytes("xmlns:svg"@) || decl == ascii_bytes(
        "xmlns:ncx"@,
    )
}

/// An attribute `xmlns:…=` opens at `i`: preceded by the start of the text,
/// `<` or whitespace, its name running to an `=`, and the name outside the
/// EPUB set.
pub open spec fn uncommon_decl_at(d: Seq<u8>, i: int) -> bool {
    &&& occurs_at(d, ascii_bytes("xmlns:"@), i)
    &&& (i == 0 || d[i - 1] == 60 || ws_ends_at(d, i))
    &&& exists|j: int| first_stop(d, i, j) && j < d.len() && d[j] == 61 && !known_prefix(d.subrange(i, j))
}

/// A namespace declaration with a prefix outside the EPUB set. The
/// `xmlns:container` inside the OCF namespace URI does not count: it opens no
/// attribute.
pub open spec fn uncommon_prefix(d: Seq<u8>) -> bool {
    exists|i: int| uncommon_decl_at(d, i)
}

pub fn lit_bytes(s: &str) -> (v: Vec<u8>)
    requires
        s.is_ascii(),
    ensures
        v@ == ascii_bytes(s@),
{
    let n = s.unicode_len();
    let mut v: Vec<u8> = Vec::new();
    let mut i: usize = 0;
    while i < n
        invariant
            n == s@.len(),
            s.is_ascii(),
            i <= n,
            v@ == ascii_bytes(s@).subrange(0, i as int),
        decreases n - i,
    {
        v.push(s.get_ascii(i));
        i = i + 1;
        assert(v@ =~= ascii_bytes(s@).subrange(0, i as int));
    }
    assert(ascii_bytes(s@).subrange(0, n as int) =~= ascii_bytes(s@));
    v
}

fn known_prefix_exec(decl: &[u8]) -> (r: bool)
    ensures
        r == known_prefix(decl@),
{
    proof {
        reveal_strlit("xmlns:dc");
        reveal_strlit("xmlns:opf");
        reveal_strlit("xmlns:epub");
        reveal_strlit("xmlns:xsi");
        reveal_strlit("xmlns:xml");
        reveal_strlit("xmlns:m");
        reveal_strlit("xmlns:svg");
        reveal_strlit("xmlns:ncx");
    }
    bytes_eq(decl, lit_bytes("xmlns:dc").as_slice()) || bytes_eq(decl, lit_bytes("xmlns:opf").as_slice())
        || bytes_eq(decl, lit_bytes("xmlns:epub").as_slice()) || bytes_eq(
        decl,
        lit_bytes("xmlns:xsi").as_slice(),
    ) || bytes_eq(decl, lit_bytes("xmlns:xml").as_slice()) || bytes_eq(
        decl,
        lit_bytes("xmlns:m").as_slice(),
    ) || bytes_eq(decl, lit_bytes("xmlns:svg").as_slice()) || bytes_eq(
        decl,
        lit_bytes("xmlns:ncx").as_slice(),
    )
}

/// The first stop at or after `i`.
fn first_stop_exec(d: &[u8], i: usize) -> (j: usize)
    requires
        i <= d@.len(),
    ensures
        first_stop(d@, i as int, j as int),
{
    let mut j = i;
    while j < d.len()
        invariant
            i <= j <= d@.len(),
            forall|k: int| i <= k < j ==> !stop_at(d@, k),
        decreases d@.len() - j,
    {
        if d[j] == 61 || ws_len_at_exec(d, j) > 0 {
            return j;
        }
        j = j + 1;
    }
    j
}

proof fn lemma_first_stop_unique(d: Seq<u8>, i: int, j1: int, j2: int)
    requires
        first_stop(d, i, j1),
        first_stop(d, i, j2),
    ensures
        j1 == j2,
{
    if j1 < j2 {
        assert(!stop_at(d, j1));
    }
    if j2 < j1 {
        assert(!stop_at(d, j2));
    }
}

/// Whether an uncommon declaration opens at `i`.
fn uncommon_decl_at_exec(d: &[u8], i: usize) -> (r: bool)
    ensures
        r == uncommon_decl_at(d@, i as int),
{
    proof {
        reveal_strlit("xmlns:");
    }
    let x = lit_bytes("xmlns:");
    if !occurs_at_exec(d, x.as_slice(), i) {
        return false;
    }
    if !(i == 0 || d[i - 1] == 60 || ws_ends_at_exec(d, i)) {
        return false;
    }
    let j = first_stop_exec(d, i);
    let ok = j < d.len() && d[j] == 61 && !known_prefix_exec(slice_subrange(d, i, j));
    proof {
        assert forall|j2: int|
            first_stop(d@, i as int, j2) implies j2 == j as int by {
            lemma_first_stop_unique(d@, i as int, j as int, j2);
        }
    }
    ok
}

/// Whether the text declares a namespace prefix outside the EPUB set.
pub fn uncommon_prefix_exec(d: &[u8]) -> (r: bool)
    ensures
        r == uncommon_prefix(d@),
{
    let mut i: usize = 0;
    while i < d.len()
        invariant
            i <= d@.len(),
            forall|j: int| 0 <= j < i ==> !uncommon_decl_at(d@, j),
        decreases d@.len() - i,
    {
        if uncommon_decl_at_exec(d, i) {
            return true;
        }
        i = i + 1;
    }
    proof {
        reveal_strlit("xmlns:");
    }
    assert forall|j: int| !uncommon_decl_at(d@, j) by {
        if j >= i {
            assert(!occurs_at(d@, ascii_bytes("xmlns:"@), j));
        }
    }
    false
}


// ---------------------------------------------------------------------------
// Attribute order
// ---------------------------------------------------------------------------

/// Position of the first byte `b` at or after `k`, or the end.
pub open spec fn next_byte(d: Seq<u8>, b: u8, k: int) -> int
    decreases d.len() - k,
{
    if k >= d.len() || k < 0 {
        d.len() as int
    } else if d[k] == b {
        k
    } else {
        next_byte(d, b, k + 1)
    }
}

/// Position of the first byte `b` at or after `k`, or the end.
pub fn next_byte_exec(d: &[u8], b: u8, k: usize) -> (r: usize)
    requires
        k <= d@.len(),
    ensures
        r as int == next_byte(d@, b, k as int),
        k <= r <= d@.len(),
{
    let mut m = k;
    while m < d.len()
        invariant
            k <= m <= d@.len(),
            next_byte(d@, b, m as int) == next_byte(d@, b, k as int),
        decreases d@.len() - m,
    {
        if d[m] == b {
            return m;
        }
        m = m + 1;
    }
    m
}

/// Where the token starting at `k` ends: the next whitespace or the end.
pub open spec fn token_end(t: Seq<u8>, k: int) -> int
    decreases t.len() - k,
{
    if k >= t.len() || k < 0 {
        t.len() as int
    } else if ws_len_at(t, k) > 0 {
        k
    } else {
        token_end(t, k + 1)
    }
}

/// Bytes allowed in an XML attribute name.
pub open spec fn name_byte(c: u8) -> bool {
    (48 <= c <= 57) || (65 <= c <= 90) || (97 <= c <= 122) || c == 58 || c == 45 || c == 95 || c == 46
}

/// A candidate is an attribute name when it is non-empty and made of name bytes.
pub open spec fn valid_name(n: Seq<u8>) -> bool {
    n.len() > 0 && forall|i: int| 0 <= i < n.len() ==> name_byte(#[trigger] n[i])
}

/// The part of a token before its first `=`.
pub open spec fn name_part(tok: Seq<u8>) -> Seq<u8> {
    tok.subrange(0, next_byte(tok, 61, 0))
}

/// The attribute names of a tag from position `k` on: whitespace-separated
/// tokens, the first (the element name) skipped while `skip` holds, each cut
/// at `=`, kept when it is a valid name.
pub open spec fn names_from(t: Seq<u8>, k: int, skip: bool) -> Seq<Seq<u8>>
    decreases t.len() - k,
{
    if k >= t.len() || k < 0 {
        Seq::empty()
    } else if ws_len_at(t, k) > 0 {
        names_from(t, k + ws_len_at(t, k), skip)
    } else {
        let e = token_end(t, k);
        if e <= k || e > t.len() {
            Seq::empty()
        } else {
            let rest = names_from(t, e, false);
            let n = name_part(t.subrange(k, e));
            if skip || !valid_name(n) {
                rest
            } else {
                seq![n] + rest
            }
        }
    }
}

/// Lexicographic order on bytes, which is the order of the names' strings.
pub open spec fn lex_lt(a: Seq<u8>, b: Seq<u8>) -> bool
    decreases a.len(),
{
    if a.len() == 0 {
        b.len() > 0
    } else if b.len() == 0 {
        false
    } else if a[0] != b[0] {
        a[0] < b[0]
    } else {
        lex_lt(a.drop_first(), b.drop_first())
    }
}

/// Whether some name is greater than the one after it.
pub open spec fn out_of_order(ns: Seq<Seq<u8>>) -> bool {
    exists|i: int| #![trigger ns[i]] 0 <= i && i + 1 < ns.len() && lex_lt(ns[i + 1], ns[i])
}

/// A tag opens with an ASCII letter and lists its attribute names out of
/// order. The tag is the chunk up to its first `>`.
pub open spec fn tag_out_of_order(chunk: Seq<u8>) -> bool {
    let t = chunk.subrange(0, next_byte(chunk, 62, 0));
    t.len() > 0 && ((65 <= t[0] <= 90) || (97 <= t[0] <= 122)) && out_of_order(names_from(t, 0, true))
}

/// The chunks of the text between `<` separators, from the one starting at
/// `start` (the `count`-th), stopping after 400.
pub open spec fn chunks_out_of_order(d: Seq<u8>, start: int, count: int) -> bool
    decreases d.len() - start,
{
    if count >= 400 || start > d.len() || start < 0 {
        false
    } else {
        let end = next_byte(d, 60, start);
        tag_out_of_order(d.subrange(start, end)) || (start <= end < d.len()
            && chunks_out_of_order(d, end + 1, count + 1))
    }
}

/// Some element among the first 400 `<`-separated chunks lists attribute
/// names out of ascending order.
pub open spec fn attrs_out_of_order(d: Seq<u8>) -> bool {
    chunks_out_of_order(d, 0, 0)
}

proof fn lemma_next_byte_bounds(d: Seq<u8>, b: u8, k: int)
    requires
        0 <= k <= d.len(),
    ensures
        k <= next_byte(d, b, k) <= d.len(),
        next_byte(d, b, k) < d.len() ==> d[next_byte(d, b, k)] == b,
    decreases d.len() - k,
{
    if k < d.len() && d[k] != b {
        lemma_next_byte_bounds(d, b, k + 1);
    }
}

proof fn lemma_token_end_bounds(t: Seq<u8>, k: int)
    requires
        0 <= k <= t.len(),
    ensures
        k <= token_end(t, k) <= t.len(),
    decreases t.len() - k,
{
    if k < t.len() && ws_len_at(t, k) == 0 {
        lemma_token_end_bounds(t, k + 1);
    }
}

fn token_end_exec(t: &[u8], k: usize) -> (r: usize)
    requires
        k <= t@.len(),
    ensures
        r as int == token_end(t@, k as int),
        k <= r <= t@.len(),
{
    let mut m = k;
    while m < t.len()
        invariant
            k <= m <= t@.len(),
            token_end(t@, m as int) == token_end(t@, k as int),
        decreases t@.len() - m,
    {
        if ws_len_at_exec(t, m) > 0 {
            return m;
        }
        m = m + 1;
    }
    m
}

fn valid_name_exec(n: &[u8]) -> (r: bool)
    ensures
        r == valid_name(n@),
{
    if n.len() == 0 {
        return false;
    }
    let mut i: usize = 0;
    while i < n.len()
        invariant
            i <= n@.len(),
            forall|j: int| 0 <= j < i ==> name_byte(#[trigger] n@[j]),
        decreases n@.len() - i,
    {
        let c = n[i];
        if !((48 <= c && c <= 57) || (65 <= c && c <= 90) || (97 <= c && c <= 122) || c == 58 || c
            == 45 || c == 95 || c == 46) {
            return false;
        }
        i = i + 1;
    }
    true
}

/// Whether `a` sorts before `b`.
pub fn lex_lt_exec(a: &[u8], b: &[u8]) -> (r: bool)
    ensures
        r == lex_lt(a@, b@),
{
    let mut i: usize = 0;
    assert(a@.subrange(0, a@.len() as int) =~= a@);
    assert(b@.subrange(0, b@.len() as int) =~= b@);
    while i < a.len() && i < b.len()
        invariant
            i <= a@.len(),
            i <= b@.len(),
            lex_lt(a@.subrange(i as int, a@.len() as int), b@.subrange(i as int, b@.len() as int))
                == lex_lt(a@, b@),
        decreases a@.len() - i,
    {
        if a[i] != b[i] {
            return a[i] < b[i];
        }
        assert(a@.subrange(i as int, a@.len() as int).drop_first() =~= a@.subrange(i + 1, a@.len() as int));
        assert(b@.subrange(i as int, b@.len() as int).drop_first() =~= b@.subrange(i + 1, b@.len() as int));
        i = i + 1;
    }
    proof {
        assert(a@.subrange(0, a@.len() as int) =~= a@);
        assert(b@.subrange(0, b@.len() as int) =~= b@);
    }
    i == a.len() && i < b.len()
}

proof fn lemma_out_of_order_push(ns: Seq<Seq<u8>>, x: Seq<u8>)
    ensures
        out_of_order(ns.push(x)) == (out_of_order(ns) || (ns.len() > 0 && lex_lt(x, ns.last()))),
{
    let p = ns.push(x);
    if out_of_order(p) {
        let i = choose|i: int| #![trigger p[i]] 0 <= i && i + 1 < p.len() && lex_lt(p[i + 1], p[i]);
        if i + 1 < ns.len() {
            assert(0 <= i && i + 1 < ns.len() && lex_lt(ns[i + 1], ns[i]));
        }
    }
    if out_of_order(ns) {
        let i = choose|i: int| #![trigger ns[i]] 0 <= i && i + 1 < ns.len() && lex_lt(ns[i + 1], ns[i]);
        assert(p[i] == ns[i] && p[i + 1] == ns[i + 1]);
    }
    if ns.len() > 0 && lex_lt(x, ns.last()) {
        let i = ns.len() - 1;
        assert(p[i] == ns[i] && p[i + 1] == x);
    }
}

proof fn lemma_out_of_order_append(ns: Seq<Seq<u8>>, ms: Seq<Seq<u8>>)
    requires
        out_of_order(ns),
    ensures
        out_of_order(ns + ms),
{
    let i = choose|i: int| #![trigger ns[i]] 0 <= i && i + 1 < ns.len() && lex_lt(ns[i + 1], ns[i]);
    assert((ns + ms)[i] == ns[i] && (ns + ms)[i + 1] == ns[i + 1]);
}

/// Whether a tag's attribute names are out of order.
fn tag_out_of_order_exec(chunk: &[u8]) -> (r: bool)
    ensures
        r == tag_out_of_order(chunk@),
{
    let te = next_byte_exec(chunk, 62, 0);
    let t = slice_subrange(chunk, 0, te);
    if t.len() == 0 || !((65 <= t[0] && t[0] <= 90) || (97 <= t[0] && t[0] <= 122)) {
        return false;
    }
    let ghost all = names_from(t@, 0, true);
    let ghost mut acc: Seq<Seq<u8>> = Seq::empty();
    let mut prev: Option<&[u8]> = None;
    let mut skip = true;
    let mut k: usize = 0;
    while k < t.len()
        invariant
            t@ == chunk@.subrange(0, next_byte(chunk@, 62, 0)),
            t@.len() > 0,
            (65 <= t@[0] <= 90) || (97 <= t@[0] <= 122),
            all == names_from(t@, 0, true),
            k <= t@.len(),
            acc + names_from(t@, k as int, skip) == all,
            !out_of_order(acc),
            match prev {
                Some(p) => acc.len() > 0 && p@ == acc.last(),
                None => acc.len() == 0,
            },
        decreases t@.len() - k,
    {
        let w = ws_len_at_exec(t, k);
        if w > 0 {
            k = k + w;
        } else {
            let e = token_end_exec(t, k);
            proof {
                lemma_token_end_bounds(t@, k as int + 1);
            }
            assert(e > k);
            let ghost rest = names_from(t@, e as int, false);
            let tok = slice_subrange(t, k, e);
            let ne = next_byte_exec(tok, 61, 0);
            let n = slice_subrange(tok, 0, ne);
            assert(n@ == name_part(t@.subrange(k as int, e as int)));
            if !skip && valid_name_exec(n) {
                proof {
                    lemma_out_of_order_push(acc, n@);
                }
                match prev {
                    Some(p) => {
                        if lex_lt_exec(n, p) {
                            proof {
                                assert(names_from(t@, k as int, skip) == seq![n@] + rest);
                                assert(out_of_order(acc.push(n@)));
                                lemma_out_of_order_append(acc.push(n@), rest);
                                assert(acc.push(n@) + rest =~= acc + names_from(t@, k as int, skip));
                                assert(out_of_order(all));
                                assert(t@ == chunk@.subrange(0, next_byte(chunk@, 62, 0)));
                                assert(t@.len() > 0);
                                assert((65 <= t@[0] <= 90) || (97 <= t@[0] <= 122));
                                assert(tag_out_of_order(chunk@));
                            }
                            return true;
                        }
                    },
                    None => {},
                }
                proof {
                    assert(acc.push(n@) + names_from(t@, e as int, false) =~= acc + names_from(t@, k as int, skip));
                    acc = acc.push(n@);
                }
                prev = Some(n);
            }
            skip = false;
            k = e;
        }
    }
    assert(k >= t@.len());
    assert(names_from(t@, k as int, skip) =~= Seq::<Seq<u8>>::empty());
    assert(acc =~= all);
    false
}

/// Whether the text holds an element listing attribute names out of
/// ascending order, among its first 400 `<`-separated chunks.
pub fn attrs_out_of_order_exec(d: &[u8]) -> (r: bool)
    ensures
        r == attrs_out_of_order(d@),
{
    let mut start: usize = 0;
    let mut count: usize = 0;
    while count < 400 && start <= d.len()
        invariant
            chunks_out_of_order(d@, start as int, count as int) == attrs_out_of_order(d@),
            count <= 400,
        decreases d@.len() + 1 - start,
    {
        let end = next_byte_exec(d, 60, start);
        if tag_out_of_order_exec(slice_subrange(d, start, end)) {
            return true;
        }
        if end >= d.len() {
            return false;
        }
        start = end + 1;
        count = count + 1;
    }
    false
}

} // verus!
