//! The library's parts on concrete values: the XML comparison, the package
//! reader, the digests, the zip reading, the record builder and the seed
//! parser.

use futhark_f2::archive::{Archive, Entry};
use futhark_f2::classify::{classify, comparison_report};
use futhark_f2::digest::{sha256_hex, to_hex};
use futhark_f2::error::F2Error;
use futhark_f2::family;
use futhark_f2::fixtures;
use futhark_f2::manifest::{record_for, roundtrip_divergences, Manifest, Record, Tier};
use futhark_f2::producer::{parse_opf, read_package};
use futhark_f2::roundtrip::Outcome;
use futhark_f2::seed;
use futhark_f2::selftest::read_bytes;
use futhark_f2::taxonomy::{Class, Divergence};
use futhark_f2::xmlcmp::infoset_equal;

fn entry(name: &str, data: &[u8]) -> Entry {
    Entry {
        name: name.to_owned(),
        data: data.to_vec(),
        method: "Deflated".to_owned(),
        compressed_size: data.len() as u64,
        modified: None,
        declared_crc: 0,
        declared_size: data.len() as u64,
        comment: String::new(),
        extra: Vec::new(),
    }
}

fn archive(entries: Vec<Entry>) -> Archive {
    Archive { entries, comment: String::new() }
}

fn mimetype() -> Entry {
    let mut e = entry("mimetype", b"application/epub+zip");
    e.method = "Stored".to_owned();
    e
}

const OPF: &str = r#"<?xml version="1.0"?>
<package xmlns="http://www.idpf.org/2007/opf" version="3.0">
  <metadata xmlns:dc="http://purl.org/dc/elements/1.1/">
    <dc:contributor>  Sigil 1.9  </dc:contributor>
    <meta name="generator" content="calibre (5.1)"/>
  </metadata>
  <manifest>
    <item id="a" href="ch1.xhtml"/>
    <item id="b" href="img/cover.png"/>
  </manifest>
</package>"#;

#[test]
fn attribute_order_and_trimmed_whitespace_are_not_differences() {
    assert!(infoset_equal(b"<a x=\"1\" y=\"2\"><b/></a>", b"<a y=\"2\" x=\"1\">  <b/>  </a>"));
    assert!(!infoset_equal(b"<a x=\"1\"/>", b"<a x=\"2\"/>"));
    assert!(!infoset_equal(b"<a>text</a>", b"<a>other</a>"));
}

#[test]
fn a_self_closing_element_equals_its_start_and_end_tags() {
    assert!(infoset_equal(b"<a/>", b"<a></a>"));
    assert!(infoset_equal(b"<p><br class='x'/></p>", b"<p><br class=\"x\"></br></p>"));
    assert!(infoset_equal(b"<p id='a' class='x'>Hi</p>", b"<p class=\"x\" id=\"a\">Hi</p>"));
    assert!(!infoset_equal(b"<a/>", b"<a>x</a>"));
    assert!(!infoset_equal(b"<p>Hi</p>", b"<p>Ho</p>"));
}

#[test]
fn an_unparseable_document_is_not_equivalent_to_itself() {
    assert!(!infoset_equal(b"<a></b>", b"<a></b>"));
}

#[test]
fn the_first_declared_producer_wins_and_is_trimmed() {
    let info = parse_opf(OPF.as_bytes());
    assert_eq!(info.producer.as_deref(), Some("Sigil 1.9"));
    assert_eq!(info.version.as_deref(), Some("3.0"));
    assert_eq!(info.manifest_hrefs, vec!["ch1.xhtml".to_owned(), "img/cover.png".to_owned()]);
}

#[test]
fn a_generator_meta_names_the_producer_when_nothing_precedes_it() {
    let info = parse_opf(b"<package version=\"2.0\"><meta name=\"Generator\" content=\"InDesign 17\"/></package>");
    assert_eq!(info.producer.as_deref(), Some("InDesign 17"));
    assert_eq!(info.version.as_deref(), Some("2.0"));
    assert!(info.manifest_hrefs.is_empty());
}

#[test]
fn the_package_is_found_through_the_container_document() {
    let container = br#"<container><rootfiles><rootfile full-path="content/book.opf"/></rootfiles></container>"#;
    let a = archive(vec![
        entry("mimetype", b"application/epub+zip"),
        entry("decoy.opf", b"<package version=\"2.0\"/>"),
        entry("META-INF/container.xml", container),
        entry("content/book.opf", OPF.as_bytes()),
    ]);
    assert_eq!(read_package(&a).version.as_deref(), Some("3.0"));

    let no_container = archive(vec![entry("x/Book.OPF", b"<package version=\"2.0\"/>")]);
    assert_eq!(read_package(&no_container).version.as_deref(), Some("2.0"));

    let nothing = archive(vec![entry("mimetype", b"application/epub+zip")]);
    let info = read_package(&nothing);
    assert!(info.producer.is_none() && info.version.is_none() && info.manifest_hrefs.is_empty());
}

#[test]
fn sha256_of_a_known_input() {
    assert_eq!(
        sha256_hex(b"abc"),
        "ba7816bf8f01cfea414140de5dae2223b00361a396177a9cb410ff61f20015ad"
    );
    assert_eq!(
        entry("x", b"").content_hash(),
        "e3b0c44298fc1c149afbf4c8996fb92427ae41e4649b934ca495991b7852b855"
    );
}

#[test]
fn hex_is_two_lowercase_digits_per_byte() {
    assert_eq!(to_hex(&[0x00, 0x0f, 0xa0, 0xff]), "000fa0ff");
    assert_eq!(to_hex(&[]), "");
}

#[test]
fn bytes_that_are_not_a_zip_archive_are_a_zip_error() {
    match read_bytes(b"this is not a zip archive") {
        Err(F2Error::Zip(_)) => {}
        other => panic!("expected a zip error, got {other:?}"),
    }
}

#[test]
fn the_base_container_reads_back_in_order() {
    let a = read_bytes(&fixtures::base().expect("base builds")).expect("base reads");
    let names: Vec<&str> = a.entries.iter().map(|e| e.name.as_str()).collect();
    assert_eq!(
        names,
        vec![
            "mimetype",
            "META-INF/container.xml",
            "OEBPS/package.opf",
            "OEBPS/nav.xhtml",
            "OEBPS/toc.ncx",
            "OEBPS/ch1.xhtml"
        ]
    );
    assert_eq!(a.entries[0].data, b"application/epub+zip".to_vec());
    assert_eq!(read_package(&a).producer.as_deref(), Some("futhark-f2-fixtures"));
}

#[test]
fn a_lying_central_directory_is_a_declared_size_mismatch() {
    let base = fixtures::base().expect("base builds");
    let lied = fixtures::lie_about_size(&base, "OEBPS/ch1.xhtml", 7);
    assert_eq!(lied.len(), base.len());
    assert_ne!(lied, base);
    let a = read_bytes(&base).expect("base reads");
    let b = read_bytes(&lied).expect("lied still opens");
    let ch1 = b.entries.iter().find(|e| e.name == "OEBPS/ch1.xhtml").expect("entry present");
    assert_eq!(ch1.declared_size, 7);
    let classes: Vec<Class> = classify(&a, &b).iter().map(|d| d.class).collect();
    assert_eq!(classes, vec![Class::DeclaredSizeMismatch]);
}

#[test]
fn a_manifest_entry_missing_from_the_container_is_reported() {
    let opf = br#"<package version="3.0"><manifest><item href="ch1.xhtml"/><item href="ch2.xhtml"/></manifest></package>"#;
    let a = archive(vec![mimetype(), entry("OEBPS/package.opf", opf), entry("OEBPS/ch1.xhtml", b"<html/>")]);
    let b = archive(vec![mimetype(), entry("OEBPS/package.opf", opf), entry("OEBPS/ch1.xhtml", b"<html/>")]);
    let found = classify(&a, &b);
    assert_eq!(found.len(), 1, "{found:?}");
    assert_eq!(found[0].class, Class::ManifestMismatch);
    assert_eq!(found[0].entry.as_deref(), Some("OEBPS/ch2.xhtml"));
}

#[test]
fn a_serialisation_only_change_is_canonicalisation_not_content() {
    let a = archive(vec![mimetype(), entry("OEBPS/ch1.xhtml", b"<html><p class=\"a\" id=\"b\">x</p></html>")]);
    let b = archive(vec![mimetype(), entry("OEBPS/ch1.xhtml", b"<html><p id=\"b\" class=\"a\">x</p></html>")]);
    let classes: Vec<Class> = classify(&a, &b).iter().map(|d| d.class).collect();
    assert_eq!(classes, vec![Class::XmlCanonicalization]);
}

#[test]
fn an_xml_comment_change_is_content() {
    let a = archive(vec![mimetype(), entry("OEBPS/ch1.xhtml", b"<html><!-- one --><p>x</p></html>")]);
    let b = archive(vec![mimetype(), entry("OEBPS/ch1.xhtml", b"<html><!-- two --><p>x</p></html>")]);
    let classes: Vec<Class> = classify(&a, &b).iter().map(|d| d.class).collect();
    assert_eq!(classes, vec![Class::ContentByteDiff]);
}

#[test]
fn an_archive_comment_change_is_container_metadata() {
    let a = archive(vec![mimetype()]);
    let mut b = archive(vec![mimetype()]);
    b.comment = "written by someone".to_owned();
    let classes: Vec<Class> = classify(&a, &b).iter().map(|d| d.class).collect();
    assert_eq!(classes, vec![Class::Comment]);
}

#[test]
fn an_entry_lost_in_the_round_trip_is_missing() {
    let a = archive(vec![entry("mimetype", b"application/epub+zip"), entry("OEBPS/extra.css", b"p{}")]);
    let b = archive(vec![entry("mimetype", b"application/epub+zip")]);
    let found = classify(&a, &b);
    assert!(found.iter().any(|d| d.class == Class::EntryMissing && d.entry.as_deref() == Some("OEBPS/extra.css")), "{found:?}");
}

#[test]
fn a_tier_b_record_never_keeps_its_path() {
    let a = read_bytes(&fixtures::base().expect("base builds")).expect("base reads");
    let b = record_for(&a, "hash".to_owned(), 10, Tier::B, Some("/home/me/book.epub".to_owned()), None, Vec::new(), None);
    assert_eq!(b.path, None);
    assert_eq!(b.producer.as_deref(), Some("futhark-f2-fixtures"));
    assert_eq!(b.epub_version.as_deref(), Some("3.0"));
    assert_eq!(b.entry_count, 6);
    assert!(b.normalized_by.is_empty());
    let t = record_for(&a, "hash".to_owned(), 10, Tier::A, Some("corpus/a.epub".to_owned()), None, Vec::new(), None);
    assert_eq!(t.path.as_deref(), Some("corpus/a.epub"));
}

#[test]
fn nothing_is_compared_when_the_reader_produced_nothing() {
    let a = archive(vec![entry("x", b"1")]);
    let b = archive(vec![entry("x", b"2")]);
    let failed = Outcome::WriteFailed { error: "no".to_owned() };
    assert!(roundtrip_divergences(&a, &failed, Some(&b)).is_empty());
    assert!(roundtrip_divergences(&a, &Outcome::RoundTripped, None).is_empty());
    assert!(!roundtrip_divergences(&a, &Outcome::RoundTripped, Some(&b)).is_empty());
}

fn record(producer: &str) -> Record {
    Record {
        source_hash: format!("h-{producer}"),
        source_bytes: 1,
        tier: Tier::B,
        path: None,
        producer: Some(producer.to_owned()),
        normalized_by: Vec::new(),
        epub_version: None,
        entry_count: 1,
        divergences: vec![Divergence::archive(Class::Timestamp, "t")],
        outcome: None,
        classifier_version: "test".to_owned(),
    }
}

#[test]
fn one_producer_measures_one_writer() {
    let mut m = Manifest::new();
    m.records = (0..5).map(|_| record("Vellum")).collect();
    let s = m.summary();
    assert!(s.measures_one_writer());
    assert_eq!(s.total, 5);
    assert_eq!(s.lossless, 5);
    m.records.push(record("Sigil"));
    assert!(!m.summary().measures_one_writer());
    assert!(!Manifest::new().summary().measures_one_writer());
}

#[test]
fn an_undeclared_producer_is_its_own_family() {
    assert_eq!(family::classify(None), "(undeclared)");
    assert_eq!(family::classify(Some("   ")), "(undeclared)");
}

#[test]
fn the_seed_parser_returns_the_declared_payload() {
    assert_eq!(seed::parse(&[]), &[] as &[u8]);
    assert_eq!(seed::parse(&[2, 7, 8, 9]), &[7, 8]);
    assert_eq!(seed::parse(&[0, 1]), &[] as &[u8]);
    assert!(seed::PANIC_MESSAGE.contains("length prefix exceeds buffer"));
}

#[test]
fn content_divergence_alone_decides_a_comparison() {
    let container_only = vec![Divergence::archive(Class::Timestamp, "t"), Divergence::archive(Class::Comment, "c")];
    assert!(futhark_f2::classify::preserves_content(&container_only));
    let lost = vec![Divergence::archive(Class::Timestamp, "t"), Divergence::entry(Class::EntryMissing, "a", "b")];
    assert!(!futhark_f2::classify::preserves_content(&lost));
    assert!(futhark_f2::classify::preserves_content(&Vec::new()));
}

#[test]
fn a_comparison_reports_each_divergence_in_columns() {
    assert_eq!(comparison_report(&Vec::new()), "identical: every entry byte-for-byte, same order, same storage\n");
    let found = vec![
        Divergence::archive(Class::Comment, "archive comment differs"),
        Divergence::entry(Class::EntryMissing, "OEBPS/a.css", "present in source, absent from round-trip"),
    ];
    let text = comparison_report(&found);
    assert_eq!(
        text,
        format!(
            "{:<24} {:<40} {}\n{:<24} {:<40} {}\n\nADR-F012 lossless: false\n",
            "comment", "(archive)", "archive comment differs",
            "entry-missing", "OEBPS/a.css", "present in source, absent from round-trip"
        )
    );
    assert!(comparison_report(&found[..1].to_vec()).ends_with("\nADR-F012 lossless: true\n"));
}

#[test]
fn replacing_follows_str_replace() {
    assert_eq!(fixtures::replace_all("a-b-c", "-", "+"), "a+b+c");
    assert_eq!(fixtures::replace_all("aaa", "aa", "b"), "ba");
    assert_eq!(fixtures::replace_all("abc", "", "X"), "XaXbXcX");
    assert_eq!(fixtures::replace_all("", "", "X"), "X");
    assert_eq!(fixtures::replace_all("héllo", "", "-"), "héllo".replace("", "-"));
}

fn bare(name: &str, data: &[u8], modified: &str) -> Entry {
    Entry {
        name: name.to_owned(),
        data: data.to_vec(),
        method: "Stored".to_owned(),
        compressed_size: data.len() as u64,
        modified: Some(modified.to_owned()),
        declared_crc: 7,
        declared_size: data.len() as u64,
        comment: String::new(),
        extra: Vec::new(),
    }
}

#[test]
fn a_report_names_entries_and_lengths_never_their_bytes() {
    let pair = |a: &[u8], b: &[u8]| {
        let s = Archive { entries: vec![bare("mimetype", b"application/epub+zip", "t0"), bare("OEBPS/a.css", a, "t0")], comment: String::new() };
        let r = Archive { entries: vec![bare("mimetype", b"application/epub+zip", "t0"), bare("OEBPS/a.css", b, "t1")], comment: String::new() };
        classify(&s, &r).into_iter().map(|d| (d.class, d.entry, d.detail)).collect::<Vec<_>>()
    };
    let first = pair(b"body { color: red }", b"body { color: tan }");
    let second = pair(b"h1 { font: 9px ab }", b"h1 { font: 8px ab }");
    assert_eq!(first, second);
    assert_eq!(first, vec![(Class::ContentByteDiff, Some("OEBPS/a.css".to_owned()), "19 -> 19 bytes".to_owned())]);
}

#[test]
fn equal_class_sequences_do_not_fix_which_entry_diverged() {
    // Bytes moved between two entries of equal length: the same classes
    // come out, naming different entries, because the comparison of each
    // entry changed. What fixes the report is each entry comparing alike.
    let side = |x: &[u8], y: &[u8], when: &str| Archive {
        entries: vec![bare("OEBPS/x.css", x, when), bare("OEBPS/y.css", y, when)],
        comment: String::new(),
    };
    let first: Vec<_> = classify(&side(b"aaaa", b"bbbb", "t0"), &side(b"aaaa", b"cccc", "t1"))
        .into_iter()
        .map(|d| (d.class, d.entry))
        .collect();
    let second: Vec<_> = classify(&side(b"dddd", b"eeee", "t0"), &side(b"ffff", b"eeee", "t1"))
        .into_iter()
        .map(|d| (d.class, d.entry))
        .collect();
    assert_eq!(first.iter().map(|c| c.0).collect::<Vec<_>>(), second.iter().map(|c| c.0).collect::<Vec<_>>());
    assert_ne!(first, second);
}
