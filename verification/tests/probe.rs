//! The custom-scheme probe server's answers.

use futhark_f2::probe::{asset_for, serve, stamp_transport, Asset, AssetBodies, CSP};

fn bodies() -> AssetBodies {
    AssetBodies {
        content_xhtml: b"<html data-transport=\"unknown\"><p data-transport=\"unknown\"/></html>".to_vec(),
        probe_js: b"console.log(1)".to_vec(),
        book_css: b"p{}".to_vec(),
        probe_png: vec![0x89, b'P', b'N', b'G'],
    }
}

#[test]
fn paths_name_assets_whatever_their_leading_slashes() {
    assert_eq!(asset_for("/"), Some((Asset::ContentXhtml, "application/xhtml+xml")));
    assert_eq!(asset_for(""), Some((Asset::ContentXhtml, "application/xhtml+xml")));
    assert_eq!(asset_for("//content.xhtml"), Some((Asset::ContentXhtml, "application/xhtml+xml")));
    assert_eq!(asset_for("/probe.js"), Some((Asset::ProbeJs, "application/javascript")));
    assert_eq!(asset_for("book.css"), Some((Asset::BookCss, "text/css")));
    assert_eq!(asset_for("/probe.png"), Some((Asset::ProbePng, "image/png")));
    assert_eq!(asset_for("/probe.png/"), None);
    assert_eq!(asset_for("/secret"), None);
}

#[test]
fn the_content_document_is_stamped_with_its_transport() {
    assert_eq!(
        stamp_transport(b"<a data-transport=\"unknown\"/><b data-transport=\"unknown\"/>"),
        b"<a data-transport=\"custom-scheme\"/><b data-transport=\"custom-scheme\"/>".to_vec()
    );
    assert_eq!(stamp_transport(b"no marker"), b"no marker".to_vec());
}

#[test]
fn a_known_asset_is_served_under_the_policy() {
    let r = serve("/", &bodies());
    assert_eq!(r.status, 200);
    assert_eq!(
        r.headers,
        vec![
            ("content-type", "application/xhtml+xml"),
            ("content-security-policy", CSP),
            ("x-content-type-options", "nosniff"),
            ("cache-control", "no-store"),
        ]
    );
    assert_eq!(r.body, b"<html data-transport=\"custom-scheme\"><p data-transport=\"custom-scheme\"/></html>".to_vec());
    assert!(CSP.starts_with("default-src 'none'; script-src 'self' futhark-content://localhost;"));

    let css = serve("/book.css", &bodies());
    assert_eq!(css.status, 200);
    assert_eq!(css.body, b"p{}".to_vec());
    assert_eq!(css.headers[0], ("content-type", "text/css"));
}

#[test]
fn an_unknown_path_is_not_found() {
    let r = serve("/etc/passwd", &bodies());
    assert_eq!(r.status, 404);
    assert_eq!(r.headers, vec![("content-type", "text/plain")]);
    assert_eq!(r.body, b"not found".to_vec());
}
