//! Infoset comparison, for telling `XmlCanonicalization` from
//! `ContentByteDiff`.
//!
//! Two documents are infoset-equal here when they carry the same elements,
//! attributes, and text, differing only in how they were serialised: attribute
//! order, quote style, self-closing form, whitespace between tags. An
//! empty-element tag is read as the start tag and end tag it abbreviates, so
//! `<a/>` and `<a></a>` compare equal.
//!
//! This is deliberately not the lossless standard. The editor promises bytes,
//! so an infoset-equal round-trip still fails the promise; the distinction
//! earns its place because the two failures have different causes and fixes.

use vstd::prelude::*;
use vstd::multiset::Multiset;
use crate::family::{trim_by, trim_string};
use crate::text::{lossy_text, str_eq, utf8_lossy};
use crate::xml::{
    is_terminal, next_event, tag_attrs, well_terminated, xml_events, xml_pending, xml_reader, RawAttr,
    XmlEvent, XmlEventView,
};

verus! {

broadcast use vstd::seq_lib::group_to_multiset_ensures, vstd::multiset::group_multiset_axioms;

/// What kind of serialisation-independent token an event becomes.
#[derive(PartialEq, Eq, Structural, Clone, Copy, Debug)]
pub enum TokenKind {
    /// A start tag, with its attributes.
    Start,
    /// An end tag.
    End,
    /// Text: trimmed character data, CDATA, or a reference.
    Text,
    /// A comment, trimmed.
    Comment,
    /// A document type declaration or processing instruction, trimmed —
    /// carried so they cannot be dropped silently.
    Other,
}

/// A serialisation-independent view of one XML event.
pub struct Token {
    pub kind: TokenKind,
    /// The tag name, or the text.
    pub text: String,
    /// Attributes as decoded key and value, in document order.
    pub attrs: Vec<(String, String)>,
}

/// The mathematical content of a token.
pub struct TokenView {
    pub kind: TokenKind,
    pub text: Seq<char>,
    pub attrs: Seq<(Seq<char>, Seq<char>)>,
}

/// The views of string pairs.
pub open spec fn pair_views(v: Seq<(String, String)>) -> Seq<(Seq<char>, Seq<char>)> {
    Seq::new(v.len(), |i: int| (v[i].0@, v[i].1@))
}

impl View for Token {
    type V = TokenView;

    open spec fn view(&self) -> TokenView {
        TokenView { kind: self.kind, text: self.text@, attrs: pair_views(self.attrs@) }
    }
}

/// The views of a token list.
pub open spec fn token_views(v: Seq<Token>) -> Seq<TokenView> {
    Seq::new(v.len(), |i: int| v[i]@)
}

/// Attributes decoded, or `None` if the reader refused any of them.
pub open spec fn attrs_of(raw: Seq<Option<(Seq<u8>, Seq<u8>)>>) -> Option<Seq<(Seq<char>, Seq<char>)>> {
    if forall|i: int| 0 <= i < raw.len() ==> (#[trigger] raw[i]) is Some {
        Some(Seq::new(raw.len(), |i: int| (lossy_text(raw[i].unwrap().0), lossy_text(raw[i].unwrap().1))))
    } else {
        None
    }
}

/// What one event contributes to the token stream: some tokens, a failure,
/// or the end.
pub enum Step {
    Emit(Seq<TokenView>),
    Fail,
    Stop,
}

/// A token with no attributes.
pub open spec fn plain(kind: TokenKind, text: Seq<char>) -> TokenView {
    TokenView { kind, text, attrs: Seq::empty() }
}

/// One token.
pub open spec fn one(t: TokenView) -> Step {
    Step::Emit(seq![t])
}

/// The start-tag token of a tag, or `None` where an attribute was refused.
pub open spec fn start_of(name: Seq<u8>, raw: Seq<Option<(Seq<u8>, Seq<u8>)>>) -> Option<TokenView> {
    match attrs_of(raw) {
        Some(a) => Some(TokenView { kind: TokenKind::Start, text: lossy_text(name), attrs: a }),
        None => None,
    }
}

/// The tokens an event becomes. An empty-element tag becomes the start tag
/// and the end tag it abbreviates.
pub open spec fn step(e: XmlEventView) -> Step {
    match e {
        XmlEventView::Start(n, a) => match start_of(n, a) {
            Some(t) => one(t),
            None => Step::Fail,
        },
        XmlEventView::Empty(n, a) => match start_of(n, a) {
            Some(t) => Step::Emit(seq![t, plain(TokenKind::End, lossy_text(n))]),
            None => Step::Fail,
        },
        XmlEventView::End(n) => one(plain(TokenKind::End, lossy_text(n))),
        XmlEventView::Text(t) => {
            let s = trim_by(0, lossy_text(t));
            if s.len() == 0 { Step::Emit(Seq::empty()) } else { one(plain(TokenKind::Text, s)) }
        },
        XmlEventView::CData(t) => one(plain(TokenKind::Text, lossy_text(t))),
        XmlEventView::Comment(t) => one(plain(TokenKind::Comment, trim_by(0, lossy_text(t)))),
        XmlEventView::Decl => Step::Emit(Seq::empty()),
        XmlEventView::DocType(t) => one(plain(TokenKind::Other, trim_by(0, lossy_text(t)))),
        XmlEventView::Pi(t) => one(plain(TokenKind::Other, trim_by(0, lossy_text(t)))),
        XmlEventView::GeneralRef(t) => one(plain(TokenKind::Text, lossy_text(t))),
        XmlEventView::Eof => Step::Stop,
        XmlEventView::Error => Step::Fail,
    }
}

/// The token stream of an event stream, or `None` if it does not parse.
pub open spec fn tokens_from(ev: Seq<XmlEventView>) -> Option<Seq<TokenView>>
    decreases ev.len(),
{
    if ev.len() == 0 {
        Some(Seq::empty())
    } else {
        match step(ev[0]) {
            Step::Stop => Some(Seq::empty()),
            Step::Fail => None,
            Step::Emit(t) => match tokens_from(ev.drop_first()) {
                Some(ts) => Some(t + ts),
                None => None,
            },
        }
    }
}

/// The token stream of a document, or `None` if it does not parse.
pub open spec fn document_tokens(data: Seq<u8>) -> Option<Seq<TokenView>> {
    tokens_from(xml_events(data, true))
}

/// `prefix` before an optional continuation.
pub open spec fn prefixed(prefix: Seq<TokenView>, rest: Option<Seq<TokenView>>) -> Option<Seq<TokenView>> {
    match rest {
        Some(ts) => Some(prefix + ts),
        None => None,
    }
}

/// Two tokens that differ at most in attribute order.
pub open spec fn token_match(a: TokenView, b: TokenView) -> bool {
    a.kind == b.kind && a.text == b.text && a.attrs.to_multiset() == b.attrs.to_multiset()
}

/// Two token streams that differ at most in attribute order.
pub open spec fn tokens_match(a: Seq<TokenView>, b: Seq<TokenView>) -> bool {
    a.len() == b.len() && forall|i: int| 0 <= i < a.len() ==> token_match(#[trigger] a[i], b[i])
}

/// Whether two documents differ only in serialisation: both parse, and their
/// token streams match.
pub open spec fn infoset_eq(a: Seq<u8>, b: Seq<u8>) -> bool {
    match (document_tokens(a), document_tokens(b)) {
        (Some(x), Some(y)) => tokens_match(x, y),
        _ => false,
    }
}

/// The optional view of a token list.
pub open spec fn opt_tokens(r: Option<Vec<Token>>) -> Option<Seq<TokenView>> {
    match r {
        Some(v) => Some(token_views(v@)),
        None => None,
    }
}

/// Decode a tag's attributes, or refuse if the reader refused any.
fn attrs(raw: &Vec<RawAttr>) -> (r: Option<Vec<(String, String)>>)
    ensures
        match r {
            Some(v) => attrs_of(crate::xml::attr_views(raw@)) == Some(pair_views(v@)),
            None => attrs_of(crate::xml::attr_views(raw@)) is None,
        },
{
    let ghost rv = crate::xml::attr_views(raw@);
    let mut out: Vec<(String, String)> = Vec::new();
    let mut i: usize = 0;
    while i < raw.len()
        invariant
            rv == crate::xml::attr_views(raw@),
            i <= raw@.len(),
            out@.len() == i,
            forall|k: int| 0 <= k < i ==> (#[trigger] rv[k]) is Some,
            forall|k: int| #![trigger pair_views(out@)[k]] 0 <= k < i ==> pair_views(out@)[k] == (
                lossy_text(rv[k].unwrap().0), lossy_text(rv[k].unwrap().1)),
        decreases raw@.len() - i,
    {
        match &raw[i] {
            Some((k, v)) => {
                let ks = utf8_lossy(k.as_slice());
                let vs = utf8_lossy(v.as_slice());
                let ghost prev = out@;
                out.push((ks, vs));
                assert forall|m: int| #![trigger pair_views(out@)[m]] 0 <= m < i + 1 implies pair_views(out@)[m] == (
                    lossy_text(rv[m].unwrap().0), lossy_text(rv[m].unwrap().1)) by {
                    if m < i {
                        assert(out@[m] == prev[m]);
                        assert(pair_views(prev)[m] == pair_views(out@)[m]);
                    }
                }
            },
            None => {
                assert(!(rv[i as int] is Some));
                return None;
            },
        }
        i = i + 1;
    }
    assert(pair_views(out@) =~= Seq::new(rv.len(), |k: int| (lossy_text(rv[k].unwrap().0), lossy_text(rv[k].unwrap().1))));
    Some(out)
}

/// A token with no attributes.
fn plain_token(kind: TokenKind, text: String) -> (t: Token)
    ensures
        t@ == plain(kind, text@),
{
    let t = Token { kind, text, attrs: Vec::new() };
    assert(pair_views(t.attrs@) =~= Seq::empty());
    t
}

/// The tokens an event becomes, computed: `Err(true)` at the end of the
/// document, `Err(false)` where it does not parse.
fn token_step(e: &XmlEvent) -> (r: Result<Vec<Token>, bool>)
    ensures
        match r {
            Ok(v) => step(e@) == Step::Emit(token_views(v@)),
            Err(stop) => if stop { step(e@) == Step::Stop } else { step(e@) == Step::Fail },
        },
{
    let mut v: Vec<Token> = Vec::new();
    match e {
        XmlEvent::Start(n, t) | XmlEvent::Empty(n, t) => {
            match attrs(&tag_attrs(t)) {
                Some(at) => v.push(Token { kind: TokenKind::Start, text: utf8_lossy(n.as_slice()), attrs: at }),
                None => return Err(false),
            }
            if let XmlEvent::Empty(_, _) = e {
                v.push(plain_token(TokenKind::End, utf8_lossy(n.as_slice())));
            }
        },
        XmlEvent::End(n) => v.push(plain_token(TokenKind::End, utf8_lossy(n.as_slice()))),
        XmlEvent::Text(t) => {
            let s = trim_string(0, utf8_lossy(t.as_slice()).as_str());
            if s.unicode_len() != 0 {
                v.push(plain_token(TokenKind::Text, s));
            }
        },
        XmlEvent::CData(t) => v.push(plain_token(TokenKind::Text, utf8_lossy(t.as_slice()))),
        XmlEvent::Comment(t) => v.push(plain_token(TokenKind::Comment, trim_string(0, utf8_lossy(t.as_slice()).as_str()))),
        XmlEvent::Decl => {},
        XmlEvent::DocType(t) => v.push(plain_token(TokenKind::Other, trim_string(0, utf8_lossy(t.as_slice()).as_str()))),
        XmlEvent::Pi(t) => v.push(plain_token(TokenKind::Other, trim_string(0, utf8_lossy(t.as_slice()).as_str()))),
        XmlEvent::GeneralRef(t) => v.push(plain_token(TokenKind::Text, utf8_lossy(t.as_slice()))),
        XmlEvent::Eof => return Err(true),
        XmlEvent::Error => return Err(false),
    }
    proof {
        match step(e@) {
            Step::Emit(ts) => assert(token_views(v@) =~= ts),
            _ => {},
        }
    }
    Ok(v)
}

/// After a non-terminal first event, the rest of a well-terminated stream is
/// still well-terminated.
proof fn lemma_rest_well_terminated(s: Seq<XmlEventView>)
    requires
        well_terminated(s),
        !is_terminal(s[0]),
    ensures
        well_terminated(s.drop_first()),
{
    assert(s.len() > 1);
    assert forall|i: int| 0 <= i < s.drop_first().len() - 1 implies !is_terminal(#[trigger] s.drop_first()[i]) by {
        assert(s.drop_first()[i] == s[i + 1]);
    }
}

/// The serialisation-independent token stream of a document, or `None` where
/// it does not parse.
pub fn tokenise(data: &[u8]) -> (r: Option<Vec<Token>>)
    ensures
        opt_tokens(r) == document_tokens(data@),
{
    let mut reader = xml_reader(data, true);
    let mut out: Vec<Token> = Vec::new();
    assert(token_views(out@) =~= Seq::<TokenView>::empty());
    assert(prefixed(Seq::empty(), tokens_from(xml_pending(reader))) == tokens_from(xml_pending(reader))) by {
        match tokens_from(xml_pending(reader)) {
            Some(ts) => assert(Seq::<TokenView>::empty() + ts =~= ts),
            None => {},
        }
    }
    loop
        invariant
            well_terminated(xml_pending(reader)),
            document_tokens(data@) == prefixed(token_views(out@), tokens_from(xml_pending(reader))),
        decreases xml_pending(reader).len(),
    {
        let ghost pend = xml_pending(reader);
        let ev = next_event(&mut reader);
        let ghost prev = token_views(out@);
        match token_step(&ev) {
            Ok(mut v) => {
                proof {
                    lemma_rest_well_terminated(pend);
                }
                let ghost tv = token_views(v@);
                out.append(&mut v);
                proof {
                    assert(token_views(out@) =~= prev + tv);
                    match tokens_from(pend.drop_first()) {
                        Some(ts) => {
                            assert(prev + (tv + ts) =~= (prev + tv) + ts);
                        },
                        None => {},
                    }
                }
            },
            Err(stop) => {
                if stop {
                    assert(prev + Seq::<TokenView>::empty() =~= prev);
                    return Some(out);
                } else {
                    return None;
                }
            },
        }
    }
}

/// Whether two string pairs are equal.
fn pair_eq(a: &(String, String), b: &(String, String)) -> (r: bool)
    ensures
        r == ((a.0@, a.1@) == (b.0@, b.1@)),
{
    str_eq(a.0.as_str(), b.0.as_str()) && str_eq(a.1.as_str(), b.1.as_str())
}

/// The elements of `s` at the positions `idx`.
pub open spec fn picked<A>(s: Seq<A>, idx: Seq<usize>) -> Seq<A> {
    Seq::new(idx.len(), |k: int| s[idx[k] as int])
}

/// Cancelling a common part of two multiset sums.
pub proof fn lemma_add_cancel<A>(m: Multiset<A>, x: Multiset<A>, y: Multiset<A>)
    requires
        m.add(x) == m.add(y),
    ensures
        x == y,
{
    assert forall|v: A| x.count(v) == y.count(v) by {
        assert(m.add(x).count(v) == m.count(v) + x.count(v));
        assert(m.add(y).count(v) == m.count(v) + y.count(v));
    }
    assert(x =~= y);
}

/// Whether two attribute lists hold the same pairs, in any order.
fn same_attrs(a: &Vec<(String, String)>, b: &Vec<(String, String)>) -> (r: bool)
    ensures
        r == (pair_views(a@).to_multiset() == pair_views(b@).to_multiset()),
{
    let ghost av = pair_views(a@);
    let ghost bv = pair_views(b@);
    let mut rem: Vec<usize> = Vec::new();
    let mut j: usize = 0;
    while j < b.len()
        invariant
            j <= b@.len(),
            rem@.len() == j,
            forall|k: int| 0 <= k < j ==> rem@[k] == k,
        decreases b@.len() - j,
    {
        rem.push(j);
        j = j + 1;
    }
    assert(picked(bv, rem@) =~= bv);
    assert(av.take(0) =~= Seq::<(Seq<char>, Seq<char>)>::empty());
    let mut i: usize = 0;
    while i < a.len()
        invariant
            av == pair_views(a@),
            bv == pair_views(b@),
            i <= a@.len(),
            forall|k: int| 0 <= k < rem@.len() ==> (#[trigger] rem@[k]) < b@.len(),
            av.take(i as int).to_multiset().add(picked(bv, rem@).to_multiset()) == bv.to_multiset(),
        decreases a@.len() - i,
    {
        let mut k: usize = 0;
        while k < rem.len() && !pair_eq(&a[i], &b[rem[k]])
            invariant
                av == pair_views(a@),
                bv == pair_views(b@),
                i < a@.len(),
                k <= rem@.len(),
                forall|m: int| 0 <= m < rem@.len() ==> (#[trigger] rem@[m]) < b@.len(),
                forall|m: int| 0 <= m < k ==> picked(bv, rem@)[m] != av[i as int],
            decreases rem@.len() - k,
        {
            k = k + 1;
        }
        let found: Option<usize> = if k < rem.len() { Some(k) } else { None };
        match found {
            Some(k) => {
                let ghost p = picked(bv, rem@);
                assert(p[k as int] == av[i as int]);
                rem.remove(k);
                proof {
                    assert(picked(bv, rem@) =~= p.remove(k as int));
                    assert(av.take(i + 1) =~= av.take(i as int).push(av[i as int]));
                    let t = av.take(i as int).to_multiset();
                    assert(av.take(i + 1).to_multiset() == t.insert(av[i as int]));
                    assert(picked(bv, rem@).to_multiset() == p.to_multiset().remove(av[i as int]));
                    assert(p.to_multiset().count(av[i as int]) > 0) by {
                        assert(p.contains(p[k as int]));
                    }
                    assert(t.insert(av[i as int]).add(p.to_multiset().remove(av[i as int])) =~= t.add(
                        p.to_multiset()));
                }
            },
            None => {
                proof {
                    let p = picked(bv, rem@);
                    let x = av[i as int];
                    assert(!p.contains(x)) by {
                        if p.contains(x) {
                            let w = choose|w: int| 0 <= w < p.len() && p[w] == x;
                            assert(picked(bv, rem@)[w] != av[i as int]);
                        }
                    }
                    if av.to_multiset() == bv.to_multiset() {
                        assert(av =~= av.take(i as int) + av.skip(i as int));
                        vstd::seq_lib::lemma_multiset_commutative(av.take(i as int), av.skip(i as int));
                        lemma_add_cancel(av.take(i as int).to_multiset(), p.to_multiset(), av.skip(i as int).to_multiset());
                        assert(av.skip(i as int)[0] == x);
                        assert(av.skip(i as int).contains(x));
                        assert(av.skip(i as int).to_multiset().count(x) > 0);
                        assert(p.to_multiset().count(x) > 0);
                    }
                }
                return false;
            },
        }
        i = i + 1;
    }
    proof {
        assert(av.take(a@.len() as int) =~= av);
        let p = picked(bv, rem@);
        if rem@.len() != 0 {
            assert(av.to_multiset().len() + p.to_multiset().len() == bv.to_multiset().len());
            assert(p.to_multiset().len() == p.len());
        } else {
            assert(p =~= Seq::<(Seq<char>, Seq<char>)>::empty());
            assert(av.to_multiset().add(p.to_multiset()) =~= av.to_multiset());
        }
    }
    rem.len() == 0
}

/// Whether two documents differ only in serialisation: attribute order,
/// quote style, whitespace between tags, and self-closing form, since an
/// empty-element tag is read as its start and end tags (see
/// [`law_empty_element_reads_as_start_and_end`]).
///
/// `false` when either side does not parse: an unparseable document is not
/// evidence of equivalence.
pub fn infoset_equal(a: &[u8], b: &[u8]) -> (r: bool)
    ensures
        r == infoset_eq(a@, b@),
{
    let ta = match tokenise(a) {
        Some(t) => t,
        None => return false,
    };
    let tb = match tokenise(b) {
        Some(t) => t,
        None => return false,
    };
    let ghost xa = token_views(ta@);
    let ghost xb = token_views(tb@);
    if ta.len() != tb.len() {
        return false;
    }
    let mut i: usize = 0;
    while i < ta.len()
        invariant
            xa == token_views(ta@),
            xb == token_views(tb@),
            document_tokens(a@) == Some(xa),
            document_tokens(b@) == Some(xb),
            ta@.len() == tb@.len(),
            i <= ta@.len(),
            forall|k: int| 0 <= k < i ==> token_match(#[trigger] xa[k], xb[k]),
        decreases ta@.len() - i,
    {
        let x = &ta[i];
        let y = &tb[i];
        assert(xa[i as int] == x@ && xb[i as int] == y@);
        if x.kind != y.kind || !str_eq(x.text.as_str(), y.text.as_str()) || !same_attrs(&x.attrs, &y.attrs) {
            assert(!token_match(xa[i as int], xb[i as int]));
            return false;
        }
        i = i + 1;
    }
    true
}

/// Differing only in serialisation is an equivalence on documents that
/// parse: every such document matches itself, matching is symmetric, and it
/// chains.
pub proof fn law_infoset_equality_is_an_equivalence(a: Seq<u8>, b: Seq<u8>, c: Seq<u8>)
    ensures
        document_tokens(a) is Some ==> infoset_eq(a, a),
        infoset_eq(a, b) == infoset_eq(b, a),
        infoset_eq(a, b) && infoset_eq(b, c) ==> infoset_eq(a, c),
{
    if let Some(x) = document_tokens(a) {
        assert(tokens_match(x, x));
        if let Some(y) = document_tokens(b) {
            assert(tokens_match(x, y) == tokens_match(y, x)) by {
                if tokens_match(x, y) {
                    assert forall|i: int| 0 <= i < y.len() implies token_match(#[trigger] y[i], x[i]) by {
                        assert(token_match(x[i], y[i]));
                    }
                }
                if tokens_match(y, x) {
                    assert forall|i: int| 0 <= i < x.len() implies token_match(#[trigger] x[i], y[i]) by {
                        assert(token_match(y[i], x[i]));
                    }
                }
            }
            if let Some(z) = document_tokens(c) {
                if tokens_match(x, y) && tokens_match(y, z) {
                    assert forall|i: int| 0 <= i < x.len() implies token_match(#[trigger] x[i], z[i]) by {
                        assert(token_match(x[i], y[i]));
                        assert(token_match(y[i], z[i]));
                    }
                }
            }
        }
    }
}

/// An empty-element tag reads as the start tag and end tag it abbreviates:
/// wherever it stands in an event stream, putting that pair in its place
/// leaves the token stream, and so every comparison, unchanged.
pub proof fn law_empty_element_reads_as_start_and_end(
    pre: Seq<XmlEventView>,
    name: Seq<u8>,
    attrs: Seq<Option<(Seq<u8>, Seq<u8>)>>,
    rest: Seq<XmlEventView>,
)
    ensures
        tokens_from(pre + seq![XmlEventView::Empty(name, attrs)] + rest) == tokens_from(
            pre + seq![XmlEventView::Start(name, attrs), XmlEventView::End(name)] + rest,
        ),
    decreases pre.len(),
{
    let short = pre + seq![XmlEventView::Empty(name, attrs)] + rest;
    let long = pre + seq![XmlEventView::Start(name, attrs), XmlEventView::End(name)] + rest;
    if pre.len() == 0 {
        assert(short[0] == XmlEventView::Empty(name, attrs));
        assert(long[0] == XmlEventView::Start(name, attrs));
        assert(short.drop_first() =~= rest);
        assert(long.drop_first() =~= seq![XmlEventView::End(name)] + rest);
        assert(long.drop_first()[0] == XmlEventView::End(name));
        assert(long.drop_first().drop_first() =~= rest);
        let end = plain(TokenKind::End, lossy_text(name));
        assert(step(XmlEventView::End(name)) == Step::Emit(seq![end]));
        assert(tokens_from(long.drop_first()) == prefixed(seq![end], tokens_from(rest)));
        match start_of(name, attrs) {
            Some(t) => {
                assert(tokens_from(short) == prefixed(seq![t, end], tokens_from(rest)));
                assert(tokens_from(long) == prefixed(seq![t], tokens_from(long.drop_first())));
                if let Some(ts) = tokens_from(rest) {
                    assert(seq![t] + (seq![end] + ts) =~= seq![t, end] + ts);
                }
            },
            None => {
                assert(tokens_from(short) is None);
                assert(tokens_from(long) is None);
            },
        }
    } else {
        assert(short[0] == pre[0] && long[0] == pre[0]);
        assert(short.drop_first() =~= pre.drop_first() + seq![XmlEventView::Empty(name, attrs)] + rest);
        assert(long.drop_first() =~= pre.drop_first() + seq![XmlEventView::Start(name, attrs), XmlEventView::End(name)]
            + rest);
        law_empty_element_reads_as_start_and_end(pre.drop_first(), name, attrs, rest);
    }
}

} // verus!
