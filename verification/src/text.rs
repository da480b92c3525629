//! Byte and character scanning shared by the classifier and the detectors.
//!
//! Book content is compared and scanned as bytes. Every needle the detectors
//! look for is ASCII, and an ASCII byte decodes to itself whatever surrounds
//! it, so a byte scan sees exactly what a scan of the decoded text would see.
//! Short strings (entry names, producer strings, reasons) are handled as
//! characters.

use vstd::prelude::*;

verus! {

// ---------------------------------------------------------------------------
// Byte sequences
// ---------------------------------------------------------------------------

/// `needle` occurs in `hay` starting at `i`.
pub open spec fn occurs_at(hay: Seq<u8>, needle: Seq<u8>, i: int) -> bool {
    0 <= i && i + needle.len() <= hay.len() && hay.subrange(i, i + needle.len()) == needle
}

/// `needle` occurs somewhere in `hay`.
pub open spec fn contains_seq(hay: Seq<u8>, needle: Seq<u8>) -> bool {
    exists|i: int| occurs_at(hay, needle, i)
}

/// Whether two byte slices hold the same bytes.
pub fn bytes_eq(a: &[u8], b: &[u8]) -> (r: bool)
    ensures
        r == (a@ == b@),
{
    if a.len() != b.len() {
        return false;
    }
    let mut i: usize = 0;
    while i < a.len()
        invariant
            a@.len() == b@.len(),
            i <= a@.len(),
            forall|k: int| 0 <= k < i ==> a@[k] == b@[k],
        decreases a@.len() - i,
    {
        if a[i] != b[i] {
            return false;
        }
        i = i + 1;
    }
    assert(a@ =~= b@);
    true
}

/// Whether `needle` occurs in `hay` at `i`.
pub fn occurs_at_exec(hay: &[u8], needle: &[u8], i: usize) -> (r: bool)
    ensures
        r == occurs_at(hay@, needle@, i as int),
{
    if i > hay.len() || needle.len() > hay.len() - i {
        return false;
    }
    let mut k: usize = 0;
    while k < needle.len()
        invariant
            i + needle@.len() <= hay.len(),
            k <= needle@.len(),
            forall|j: int| 0 <= j < k ==> hay@[i + j] == needle@[j],
        decreases needle@.len() - k,
    {
        if hay[i + k] != needle[k] {
            assert(hay@.subrange(i as int, i + needle@.len())[k as int] != needle@[k as int]);
            return false;
        }
        k = k + 1;
    }
    assert(hay@.subrange(i as int, i + needle@.len()) =~= needle@);
    true
}

/// The first occurrence of `needle` in `hay` at or after `from`.
pub open spec fn first_at_or_after(hay: Seq<u8>, needle: Seq<u8>, from: int, i: int) -> bool {
    from <= i && occurs_at(hay, needle, i) && forall|j: int| from <= j < i ==> !occurs_at(hay, needle, j)
}

/// Position of the first occurrence of `needle` in `hay` at or after `from`.
pub fn find_from(hay: &[u8], needle: &[u8], from: usize) -> (r: Option<usize>)
    ensures
        match r {
            Some(i) => first_at_or_after(hay@, needle@, from as int, i as int),
            None => forall|j: int| from <= j ==> !occurs_at(hay@, needle@, j),
        },
{
    let mut i = from;
    while i < hay.len()
        invariant
            from <= i,
            forall|j: int| from <= j < i ==> !occurs_at(hay@, needle@, j),
        decreases hay@.len() - i,
    {
        if occurs_at_exec(hay, needle, i) {
            return Some(i);
        }
        i = i + 1;
    }
    if occurs_at_exec(hay, needle, i) {
        return Some(i);
    }
    None
}

/// Whether `needle` occurs anywhere in `hay`.
pub fn contains_bytes(hay: &[u8], needle: &[u8]) -> (r: bool)
    ensures
        r == contains_seq(hay@, needle@),
{
    match find_from(hay, needle, 0) {
        Some(i) => true,
        None => false,
    }
}

/// Whether `hay` starts with `prefix`.
pub open spec fn starts_with_seq(hay: Seq<u8>, prefix: Seq<u8>) -> bool {
    occurs_at(hay, prefix, 0)
}

/// ASCII lowercase of one byte; every other byte is left alone.
pub open spec fn lower(b: u8) -> u8 {
    if 65 <= b <= 90 { (b + 32) as u8 } else { b }
}

/// ASCII lowercase of one byte.
pub fn lower_exec(b: u8) -> (r: u8)
    ensures
        r == lower(b),
{
    if 65 <= b && b <= 90 { b + 32 } else { b }
}

/// `needle` (already lowercase) occurs at `i` when `hay` is ASCII-lowercased.
pub open spec fn occurs_at_ci(hay: Seq<u8>, needle: Seq<u8>, i: int) -> bool {
    0 <= i && i + needle.len() <= hay.len() && forall|k: int|
        0 <= k < needle.len() ==> #[trigger] lower(hay[i + k]) == needle[k]
}

/// Whether `needle` occurs at `i` in the ASCII-lowercased `hay`.
pub fn occurs_at_ci_exec(hay: &[u8], needle: &[u8], i: usize) -> (r: bool)
    ensures
        r == occurs_at_ci(hay@, needle@, i as int),
{
    if i > hay.len() || needle.len() > hay.len() - i {
        return false;
    }
    let mut k: usize = 0;
    while k < needle.len()
        invariant
            i + needle@.len() <= hay.len(),
            k <= needle@.len(),
            forall|j: int| 0 <= j < k ==> #[trigger] lower(hay@[i + j]) == needle@[j],
        decreases needle@.len() - k,
    {
        if lower_exec(hay[i + k]) != needle[k] {
            return false;
        }
        k = k + 1;
    }
    true
}

/// Whether `needle` (already lowercase) occurs in the ASCII-lowercased `hay`.
pub open spec fn contains_ci(hay: Seq<u8>, needle: Seq<u8>) -> bool {
    exists|i: int| occurs_at_ci(hay, needle, i)
}

/// Position of the first occurrence of `needle` in the ASCII-lowercased `hay`
/// at or after `from`.
pub fn find_ci_from(hay: &[u8], needle: &[u8], from: usize) -> (r: Option<usize>)
    ensures
        match r {
            Some(i) => from <= i && occurs_at_ci(hay@, needle@, i as int) && forall|j: int|
                from <= j < i ==> !occurs_at_ci(hay@, needle@, j),
            None => forall|j: int| from <= j ==> !occurs_at_ci(hay@, needle@, j),
        },
{
    let mut i = from;
    while i < hay.len()
        invariant
            from <= i,
            forall|j: int| from <= j < i ==> !occurs_at_ci(hay@, needle@, j),
        decreases hay@.len() - i,
    {
        if occurs_at_ci_exec(hay, needle, i) {
            return Some(i);
        }
        i = i + 1;
    }
    if occurs_at_ci_exec(hay, needle, i) {
        return Some(i);
    }
    None
}

/// Whether `needle` occurs in the ASCII-lowercased `hay`.
pub fn contains_ci_exec(hay: &[u8], needle: &[u8]) -> (r: bool)
    ensures
        r == contains_ci(hay@, needle@),
{
    match find_ci_from(hay, needle, 0) {
        Some(_) => true,
        None => false,
    }
}

/// A copy of a byte slice.
pub fn copy_bytes(s: &[u8]) -> (v: Vec<u8>)
    ensures
        v@ == s@,
{
    let mut v: Vec<u8> = Vec::new();
    let mut i: usize = 0;
    while i < s.len()
        invariant
            i <= s@.len(),
            v@ == s@.subrange(0, i as int),
        decreases s@.len() - i,
    {
        v.push(s[i]);
        i = i + 1;
        assert(v@ =~= s@.subrange(0, i as int));
    }
    assert(s@.subrange(0, s@.len() as int) =~= s@);
    v
}

// ---------------------------------------------------------------------------
// Characters
// ---------------------------------------------------------------------------

/// Unicode `White_Space`, the property `char::is_whitespace` reports.
pub open spec fn is_ws(c: char) -> bool {
    let u = c as u32;
    (9 <= u <= 13) || u == 32 || u == 0x85 || u == 0xA0 || u == 0x1680 || (0x2000 <= u <= 0x200A)
        || u == 0x2028 || u == 0x2029 || u == 0x202F || u == 0x205F || u == 0x3000
}

/// Whether a character is Unicode whitespace.
pub fn is_ws_exec(c: char) -> (r: bool)
    ensures
        r == is_ws(c),
{
    let u = c as u32;
    (9 <= u && u <= 13) || u == 32 || u == 0x85 || u == 0xA0 || u == 0x1680 || (0x2000 <= u && u
        <= 0x200A) || u == 0x2028 || u == 0x2029 || u == 0x202F || u == 0x205F || u == 0x3000
}

/// The characters of a string, one by one.
pub fn chars_of(s: &str) -> (v: Vec<char>)
    ensures
        v@ == s@,
{
    let n = s.unicode_len();
    let mut v: Vec<char> = Vec::new();
    let mut i: usize = 0;
    while i < n
        invariant
            n == s@.len(),
            i <= n,
            v@ == s@.subrange(0, i as int),
        decreases n - i,
    {
        v.push(s.get_char(i));
        i = i + 1;
        assert(v@ =~= s@.subrange(0, i as int));
    }
    assert(s@.subrange(0, n as int) =~= s@);
    v
}

/// Whether two strings hold the same characters.
pub fn str_eq(a: &str, b: &str) -> (r: bool)
    ensures
        r == (a@ == b@),
{
    let n = a.unicode_len();
    if n != b.unicode_len() {
        return false;
    }
    let mut i: usize = 0;
    while i < n
        invariant
            n == a@.len(),
            n == b@.len(),
            i <= n,
            forall|k: int| 0 <= k < i ==> a@[k] == b@[k],
        decreases n - i,
    {
        if a.get_char(i) != b.get_char(i) {
            return false;
        }
        i = i + 1;
    }
    assert(a@ =~= b@);
    true
}

/// Whether two optional strings are equal.
pub fn opt_str_eq(a: &Option<String>, b: &Option<String>) -> (r: bool)
    ensures
        r == (opt_view(*a) == opt_view(*b)),
{
    match (a, b) {
        (Some(x), Some(y)) => str_eq(x.as_str(), y.as_str()),
        (None, None) => true,
        _ => false,
    }
}

/// The view of an optional string.
pub open spec fn opt_view(o: Option<String>) -> Option<Seq<char>> {
    match o {
        Some(s) => Some(s@),
        None => None,
    }
}

/// The view of optional bytes.
pub open spec fn opt_bytes(o: Option<Vec<u8>>) -> Option<Seq<u8>> {
    match o {
        Some(v) => Some(v@),
        None => None,
    }
}

/// Whether every character of a string is whitespace, which is what an empty
/// `trim()` means.
pub open spec fn blank(s: Seq<char>) -> bool {
    forall|i: int| 0 <= i < s.len() ==> is_ws(#[trigger] s[i])
}

/// Whether a string is empty once trimmed.
pub fn is_blank(s: &str) -> (r: bool)
    ensures
        r == blank(s@),
{
    let n = s.unicode_len();
    let mut i: usize = 0;
    while i < n
        invariant
            n == s@.len(),
            i <= n,
            forall|k: int| 0 <= k < i ==> is_ws(#[trigger] s@[k]),
        decreases n - i,
    {
        if !is_ws_exec(s.get_char(i)) {
            return false;
        }
        i = i + 1;
    }
    true
}

/// ASCII lowercase of one character.
pub open spec fn lower_char(c: char) -> char {
    if 'A' <= c <= 'Z' { ((c as u32) + 32) as char } else { c }
}

/// ASCII lowercase of one character.
pub fn lower_char_exec(c: char) -> (r: char)
    ensures
        r == lower_char(c),
{
    if 'A' <= c && c <= 'Z' {
        (((c as u32) + 32) as u8) as char
    } else {
        c
    }
}

/// `needle` (already lowercase) occurs at `i` of the ASCII-lowercased `hay`.
pub open spec fn chars_at_ci(hay: Seq<char>, needle: Seq<char>, i: int) -> bool {
    0 <= i && i + needle.len() <= hay.len() && forall|k: int|
        0 <= k < needle.len() ==> #[trigger] lower_char(hay[i + k]) == needle[k]
}

/// `needle` (already lowercase) occurs in the ASCII-lowercased `hay`.
pub open spec fn contains_chars_ci(hay: Seq<char>, needle: Seq<char>) -> bool {
    exists|i: int| chars_at_ci(hay, needle, i)
}

/// The ASCII-lowercased `hay` ends with `suffix` (already lowercase).
pub open spec fn ends_with_ci(hay: Seq<char>, suffix: Seq<char>) -> bool {
    suffix.len() <= hay.len() && chars_at_ci(hay, suffix, hay.len() - suffix.len())
}

/// Whether `needle` occurs at `i` of the ASCII-lowercased `hay`.
pub fn chars_at_ci_exec(hay: &Vec<char>, needle: &str, i: usize) -> (r: bool)
    ensures
        r == chars_at_ci(hay@, needle@, i as int),
{
    let n = needle.unicode_len();
    if i > hay.len() || n > hay.len() - i {
        return false;
    }
    let mut k: usize = 0;
    while k < n
        invariant
            n == needle@.len(),
            i + n <= hay.len(),
            k <= n,
            forall|j: int| 0 <= j < k ==> #[trigger] lower_char(hay@[i + j]) == needle@[j],
        decreases n - k,
    {
        if lower_char_exec(hay[i + k]) != needle.get_char(k) {
            return false;
        }
        k = k + 1;
    }
    true
}

/// Whether `needle` occurs in the ASCII-lowercased `hay`.
pub fn contains_chars_ci_exec(hay: &Vec<char>, needle: &str) -> (r: bool)
    ensures
        r == contains_chars_ci(hay@, needle@),
{
    let mut i: usize = 0;
    while i < hay.len()
        invariant
            i <= hay@.len(),
            forall|j: int| 0 <= j < i ==> !chars_at_ci(hay@, needle@, j),
        decreases hay@.len() - i,
    {
        if chars_at_ci_exec(hay, needle, i) {
            return true;
        }
        i = i + 1;
    }
    if chars_at_ci_exec(hay, needle, i) {
        return true;
    }
    assert forall|j: int| 0 <= j implies !chars_at_ci(hay@, needle@, j) by {
        if j > i {
            assert(!chars_at_ci(hay@, needle@, j));
        }
    }
    false
}

/// Whether the ASCII-lowercased `hay` ends with `suffix`.
pub fn ends_with_ci_exec(hay: &Vec<char>, suffix: &str) -> (r: bool)
    ensures
        r == ends_with_ci(hay@, suffix@),
{
    let n = suffix.unicode_len();
    if n > hay.len() {
        return false;
    }
    chars_at_ci_exec(hay, suffix, hay.len() - n)
}

/// The text std's lossy UTF-8 decoding makes of some bytes: every invalid
/// sequence becomes U+FFFD.
pub uninterp spec fn lossy_text(b: Seq<u8>) -> Seq<char>;

/// `String::from_utf8_lossy`, owned. Its result is named by [`lossy_text`],
/// a function of the bytes alone. Claimed besides, as std documents: valid
/// UTF-8 decodes to exactly its characters. The replacement rules for
/// invalid input are std's and are not restated here.
#[verifier::external_body]
pub(crate) fn utf8_lossy(b: &[u8]) -> (r: String)
    ensures
        r@ == lossy_text(b@),
        vstd::utf8::valid_utf8(b@) ==> r@ == vstd::utf8::decode_utf8(b@),
{
    String::from_utf8_lossy(b).into_owned()
}

/// Concatenate two byte vectors.
pub fn concat_bytes(a: &[u8], b: &[u8]) -> (r: Vec<u8>)
    ensures
        r@ == a@ + b@,
{
    let mut r = copy_bytes(a);
    let mut i: usize = 0;
    while i < b.len()
        invariant
            i <= b@.len(),
            r@ == a@ + b@.subrange(0, i as int),
        decreases b@.len() - i,
    {
        r.push(b[i]);
        i = i + 1;
        assert(r@ =~= a@ + b@.subrange(0, i as int));
    }
    assert(b@.subrange(0, b@.len() as int) =~= b@);
    r
}

// ---------------------------------------------------------------------------
// Building strings
// ---------------------------------------------------------------------------

/// The decimal digit character for `d < 10`.
pub open spec fn digit_char(d: nat) -> char {
    if d == 0 { '0' }
    else if d == 1 { '1' }
    else if d == 2 { '2' }
    else if d == 3 { '3' }
    else if d == 4 { '4' }
    else if d == 5 { '5' }
    else if d == 6 { '6' }
    else if d == 7 { '7' }
    else if d == 8 { '8' }
    else { '9' }
}

/// Decimal rendering of a natural number, as `{}` formats it.
pub open spec fn decimal(n: nat) -> Seq<char>
    decreases n,
{
    if n < 10 {
        seq![digit_char(n)]
    } else {
        decimal(n / 10) + seq![digit_char(n % 10)]
    }
}

fn digit_str(d: u64) -> (s: &'static str)
    requires
        d < 10,
    ensures
        s@ == seq![digit_char(d as nat)],
{
    proof {
        reveal_strlit("0");
        reveal_strlit("1");
        reveal_strlit("2");
        reveal_strlit("3");
        reveal_strlit("4");
        reveal_strlit("5");
        reveal_strlit("6");
        reveal_strlit("7");
        reveal_strlit("8");
        reveal_strlit("9");
    }
    let s = if d == 0 { "0" }
    else if d == 1 { "1" }
    else if d == 2 { "2" }
    else if d == 3 { "3" }
    else if d == 4 { "4" }
    else if d == 5 { "5" }
    else if d == 6 { "6" }
    else if d == 7 { "7" }
    else if d == 8 { "8" }
    else { "9" };
    assert(s@ =~= seq![digit_char(d as nat)]);
    s
}

/// Decimal rendering of a number.
pub fn decimal_string(n: u64) -> (s: String)
    ensures
        s@ == decimal(n as nat),
    decreases n,
{
    if n < 10 {
        digit_str(n).to_owned()
    } else {
        let mut s = decimal_string(n / 10);
        s.append(digit_str(n % 10));
        s
    }
}

/// Append a number in decimal.
pub fn push_decimal(s: &mut String, n: u64)
    ensures
        final(s)@ == old(s)@ + decimal(n as nat),
{
    let d = decimal_string(n);
    s.append(d.as_str());
}

/// How `{:?}` renders a string: quoted, with escapes.
pub uninterp spec fn debug_text(s: Seq<char>) -> Seq<char>;

/// `{:?}` of a string slice (std's `Debug` for `str`). The result is named,
/// not described: it depends on the characters alone, and the escaping rules
/// are std's.
#[verifier::external_body]
pub(crate) fn debug_str(s: &str) -> (r: String)
    ensures
        r@ == debug_text(s@),
{
    format!("{s:?}")
}

/// How `{:?}` renders an optional string: `None`, or `Some(` the quoted
/// string `)`.
pub open spec fn debug_opt(o: Option<Seq<char>>) -> Seq<char> {
    match o {
        Some(s) => "Some("@ + debug_text(s) + ")"@,
        None => "None"@,
    }
}

/// `{:?}` of an optional string.
pub fn debug_opt_string(o: &Option<String>) -> (r: String)
    ensures
        r@ == debug_opt(opt_view(*o)),
{
    match o {
        Some(s) => {
            let mut r = "Some(".to_owned();
            let d = debug_str(s.as_str());
            r.append(d.as_str());
            r.append(")");
            r
        },
        None => "None".to_owned(),
    }
}

/// `n` spaces.
pub open spec fn spaces(n: nat) -> Seq<char> {
    Seq::new(n, |i: int| ' ')
}

/// Text left-aligned in a field of `w` characters: padded with spaces on the
/// right, never cut.
pub open spec fn padded(t: Seq<char>, w: nat) -> Seq<char> {
    if t.len() >= w { t } else { t + spaces((w - t.len()) as nat) }
}

/// Append `t` left-aligned in a field of `w` characters.
pub(crate) fn push_padded(s: &mut String, t: &str, w: usize)
    ensures
        final(s)@ == old(s)@ + padded(t@, w as nat),
{
    let ghost start = s@;
    s.append(t);
    let mut k: usize = t.unicode_len();
    if k >= w {
        return;
    }
    assert(spaces(0) =~= Seq::<char>::empty());
    while k < w
        invariant
            t@.len() <= k <= w,
            s@ == start + t@ + spaces((k - t@.len()) as nat),
        decreases w - k,
    {
        s.append(" ");
        proof {
            reveal_strlit(" ");
            assert(spaces((k + 1 - t@.len()) as nat) =~= spaces((k - t@.len()) as nat).push(' '));
        }
        k = k + 1;
        assert(s@ =~= start + t@ + spaces((k - t@.len()) as nat));
    }
}

/// How a boolean prints.
pub open spec fn bool_text(b: bool) -> Seq<char> {
    if b { "true"@ } else { "false"@ }
}

/// Text right-aligned in a field of `w` characters: padded with spaces on
/// the left, never cut.
pub open spec fn padded_left(t: Seq<char>, w: nat) -> Seq<char> {
    if t.len() >= w { t } else { spaces((w - t.len()) as nat) + t }
}

/// Append `t` right-aligned in a field of `w` characters.
pub(crate) fn push_padded_left(s: &mut String, t: &str, w: usize)
    ensures
        final(s)@ == old(s)@ + padded_left(t@, w as nat),
{
    let ghost start = s@;
    let n = t.unicode_len();
    let mut k: usize = n;
    assert(spaces(0) =~= Seq::<char>::empty());
    while k < w
        invariant
            n == t@.len(),
            n <= k,
            k <= w || n >= w,
            k > n ==> k <= w,
            s@ == start + spaces((k - n) as nat),
        decreases w - k,
    {
        s.append(" ");
        proof {
            reveal_strlit(" ");
            assert(spaces((k + 1 - n) as nat) =~= spaces((k - n) as nat).push(' '));
        }
        k = k + 1;
        assert(s@ =~= start + spaces((k - n) as nat));
    }
    s.append(t);
    proof {
        if n >= w {
            assert(k == n);
            assert(spaces(0) =~= Seq::<char>::empty());
            assert(s@ =~= start + t@);
        } else {
            assert(k == w);
            assert(s@ =~= start + (spaces((w - n) as nat) + t@));
        }
    }
}

} // verus!
