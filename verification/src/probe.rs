//! What the custom-scheme probe server answers.
//!
//! One probe, two transports: the content is the same under both, and only
//! the server changes. This is the server's decision, from a request path to
//! a reply — which asset, under which content type and security headers, and
//! the content document stamped with the transport that served it. The shell
//! that registers the scheme and ships the asset bytes hands those bytes in.

use vstd::prelude::*;
use vstd::utf8::encode_utf8;
use crate::fixtures::{replace_all, replaced, text_bytes};
use crate::text::{chars_of, copy_bytes, lossy_text, str_eq, utf8_lossy};

verus! {

/// The content security policy every asset is served under.
pub const CSP: &'static str = "default-src 'none'; script-src 'self' futhark-content://localhost; style-src 'self' futhark-content://localhost; img-src 'self' data: futhark-content://localhost; font-src 'self' futhark-content://localhost; connect-src 'none'; object-src 'none'; form-action 'none'; base-uri 'none'";

/// The content type of the probe's content document.
pub const XHTML: &'static str = "application/xhtml+xml";

/// The assets the probe serves.
#[derive(Debug, Clone, Copy, PartialEq, Eq, Structural)]
pub enum Asset {
    /// The content document.
    ContentXhtml,
    /// The probe script.
    ProbeJs,
    /// The book stylesheet.
    BookCss,
    /// The probe image.
    ProbePng,
}

/// A path with every leading `/` removed.
pub open spec fn without_leading_slashes(p: Seq<char>) -> Seq<char>
    decreases p.len(),
{
    if p.len() > 0 && p[0] == '/' { without_leading_slashes(p.drop_first()) } else { p }
}

/// The asset a request path names, with its content type.
pub open spec fn asset_of(path: Seq<char>) -> Option<(Asset, Seq<char>)> {
    let p = without_leading_slashes(path);
    if p == Seq::<char>::empty() || p == "content.xhtml"@ {
        Some((Asset::ContentXhtml, XHTML@))
    } else if p == "probe.js"@ {
        Some((Asset::ProbeJs, "application/javascript"@))
    } else if p == "book.css"@ {
        Some((Asset::BookCss, "text/css"@))
    } else if p == "probe.png"@ {
        Some((Asset::ProbePng, "image/png"@))
    } else {
        None
    }
}

/// Whether the characters of `cs` from `k` on are exactly `lit`.
fn rest_is(cs: &Vec<char>, k: usize, lit: &str) -> (b: bool)
    requires
        k <= cs@.len(),
    ensures
        b == (cs@.skip(k as int) == lit@),
{
    let ls = chars_of(lit);
    let n = cs.len();
    if n - k != ls.len() {
        return false;
    }
    let mut i: usize = 0;
    while i < ls.len()
        invariant
            ls@ == lit@,
            n == cs@.len(),
            k <= cs@.len(),
            k + ls@.len() == cs@.len(),
            i <= ls@.len(),
            forall|j: int| 0 <= j < i ==> cs@[k + j] == ls@[j],
        decreases ls@.len() - i,
    {
        if cs[k + i] != ls[i] {
            assert(cs@.skip(k as int)[i as int] != lit@[i as int]);
            return false;
        }
        i = i + 1;
    }
    assert(cs@.skip(k as int) =~= lit@);
    true
}

/// Dropping leading slashes from a suffix of the path.
proof fn lemma_strip_step(p: Seq<char>, k: int)
    requires
        0 <= k < p.len(),
        p[k] == '/',
    ensures
        without_leading_slashes(p.skip(k)) == without_leading_slashes(p.skip(k + 1)),
{
    assert(p.skip(k).drop_first() =~= p.skip(k + 1));
}

/// The asset a request path names, with its content type: leading slashes
/// are ignored, and the bare root is the content document.
pub fn asset_for(path: &str) -> (r: Option<(Asset, &'static str)>)
    ensures
        match r {
            Some((a, mime)) => asset_of(path@) == Some((a, mime@)),
            None => asset_of(path@) is None,
        },
{
    let cs = chars_of(path);
    let mut k: usize = 0;
    assert(cs@.skip(0) =~= path@);
    while k < cs.len() && cs[k] == '/'
        invariant
            cs@ == path@,
            k <= cs@.len(),
            without_leading_slashes(cs@.skip(k as int)) == without_leading_slashes(path@),
        decreases cs@.len() - k,
    {
        proof {
            lemma_strip_step(cs@, k as int);
        }
        k = k + 1;
    }
    let ghost p = cs@.skip(k as int);
    assert(without_leading_slashes(p) == p);
    proof {
        reveal_strlit("");
    }
    assert(""@ =~= Seq::<char>::empty());
    if rest_is(&cs, k, "") || rest_is(&cs, k, "content.xhtml") {
        Some((Asset::ContentXhtml, XHTML))
    } else if rest_is(&cs, k, "probe.js") {
        Some((Asset::ProbeJs, "application/javascript"))
    } else if rest_is(&cs, k, "book.css") {
        Some((Asset::BookCss, "text/css"))
    } else if rest_is(&cs, k, "probe.png") {
        Some((Asset::ProbePng, "image/png"))
    } else {
        None
    }
}

/// The content document as served: read as text, with every
/// `data-transport="unknown"` marked as the custom scheme.
pub open spec fn stamped(body: Seq<u8>) -> Seq<u8> {
    encode_utf8(replaced(lossy_text(body), "data-transport=\"unknown\""@, "data-transport=\"custom-scheme\""@))
}

/// Mark the content document with the transport that served it, so that the
/// probe's result says which server it ran under.
pub fn stamp_transport(body: &[u8]) -> (r: Vec<u8>)
    ensures
        r@ == stamped(body@),
{
    proof {
        reveal_strlit("data-transport=\"unknown\"");
    }
    let text = utf8_lossy(body);
    let out = replace_all(text.as_str(), "data-transport=\"unknown\"", "data-transport=\"custom-scheme\"");
    text_bytes(out.as_str())
}

/// The bytes of each asset, as the shell ships them.
pub struct AssetBodies {
    pub content_xhtml: Vec<u8>,
    pub probe_js: Vec<u8>,
    pub book_css: Vec<u8>,
    pub probe_png: Vec<u8>,
}

/// The bytes of one asset.
pub open spec fn body_of(b: AssetBodies, a: Asset) -> Seq<u8> {
    match a {
        Asset::ContentXhtml => b.content_xhtml@,
        Asset::ProbeJs => b.probe_js@,
        Asset::BookCss => b.book_css@,
        Asset::ProbePng => b.probe_png@,
    }
}

/// A reply: status, headers in order, body.
pub struct Reply {
    pub status: u16,
    pub headers: Vec<(&'static str, &'static str)>,
    pub body: Vec<u8>,
}

/// The views of a list of headers.
pub open spec fn header_views(h: Seq<(&'static str, &'static str)>) -> Seq<(Seq<char>, Seq<char>)> {
    Seq::new(h.len(), |i: int| (h[i].0@, h[i].1@))
}

/// The reply to a request for `path`: a known asset with its content type,
/// the policy, no sniffing and no caching, the content document stamped; or
/// a plain not-found.
pub open spec fn reply_ok(r: Reply, path: Seq<char>, b: AssetBodies) -> bool {
    match asset_of(path) {
        Some((a, mime)) => {
            &&& r.status == 200
            &&& header_views(r.headers@) == seq![
                ("content-type"@, mime),
                ("content-security-policy"@, CSP@),
                ("x-content-type-options"@, "nosniff"@),
                ("cache-control"@, "no-store"@),
            ]
            &&& r.body@ == (if mime == XHTML@ { stamped(body_of(b, a)) } else { body_of(b, a) })
        },
        None => {
            &&& r.status == 404
            &&& header_views(r.headers@) == seq![("content-type"@, "text/plain"@)]
            &&& r.body@ == encode_utf8("not found"@)
        },
    }
}

/// Answer a request for `path`.
pub fn serve(path: &str, bodies: &AssetBodies) -> (r: Reply)
    ensures
        reply_ok(r, path@, *bodies),
{
    match asset_for(path) {
        Some((a, mime)) => {
            let raw: &Vec<u8> = match a {
                Asset::ContentXhtml => &bodies.content_xhtml,
                Asset::ProbeJs => &bodies.probe_js,
                Asset::BookCss => &bodies.book_css,
                Asset::ProbePng => &bodies.probe_png,
            };
            let body = if str_eq(mime, XHTML) { stamp_transport(raw.as_slice()) } else { copy_bytes(raw.as_slice()) };
            let mut headers: Vec<(&'static str, &'static str)> = Vec::new();
            headers.push(("content-type", mime));
            headers.push(("content-security-policy", CSP));
            headers.push(("x-content-type-options", "nosniff"));
            headers.push(("cache-control", "no-store"));
            assert(header_views(headers@) =~= seq![
                ("content-type"@, mime@),
                ("content-security-policy"@, CSP@),
                ("x-content-type-options"@, "nosniff"@),
                ("cache-control"@, "no-store"@),
            ]);
            Reply { status: 200, headers, body }
        },
        None => {
            let mut headers: Vec<(&'static str, &'static str)> = Vec::new();
            headers.push(("content-type", "text/plain"));
            assert(header_views(headers@) =~= seq![("content-type"@, "text/plain"@)]);
            let body = text_bytes("not found");
            Reply { status: 404, headers, body }
        },
    }
}

} // verus!
