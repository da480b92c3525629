//! A clean run on a normalized corpus cannot produce a result that supports
//! adoption.

use futhark_f2::manifest::{Manifest, Record, Tier, CONTINGENT_GAPS, CONTINGENT_GAP_MIN_BOOKS};
use futhark_f2::taxonomy::{Class, Divergence};
use futhark_f2::verdict::{Shortfall, Verdict, FAMILY_FLOOR};

fn record(producer: &str, normalized: bool, divergences: Vec<Divergence>) -> Record {
    Record {
        source_hash: format!("hash-{producer}-{normalized}"),
        source_bytes: 1,
        tier: Tier::B,
        path: None,
        producer: Some(producer.to_owned()),
        normalized_by: if normalized { vec!["calibre-meta".to_owned()] } else { Vec::new() },
        epub_version: Some("3.0".to_owned()),
        entry_count: 4,
        divergences,
        outcome: None,
        classifier_version: "test".to_owned(),
    }
}

fn manifest_of(records: Vec<Record>) -> Manifest {
    let mut m = Manifest::new();
    m.records = records;
    m
}

#[test]
fn a_clean_run_on_a_normalized_corpus_is_not_a_pass() {
    let m = manifest_of((0..20).map(|i| record(&format!("calibre {i}"), true, Vec::new())).collect());
    let v = Verdict::judge(&m.summary(), FAMILY_FLOOR);
    assert!(matches!(v, Verdict::Inconclusive { .. }), "{v:?}");
    assert!(!v.supports_adoption(), "a screening pass must never support adoption");
    assert!(!v.resolves_adr_f011(), "the reader decision stays open on a screening pass");
}

#[test]
fn failure_is_decisive_even_on_a_normalized_corpus() {
    let mut records = vec![record("calibre", true, Vec::new())];
    records.push(record(
        "calibre",
        true,
        vec![Divergence::entry(Class::ContentByteDiff, "ch1.xhtml", "differs")],
    ));
    let v = Verdict::judge(&manifest_of(records).summary(), FAMILY_FLOOR);
    assert!(matches!(v, Verdict::Disqualifying { .. }), "{v:?}");
    assert!(v.resolves_adr_f011(), "a failure on the easy population is decisive");
}

#[test]
fn a_diverse_un_normalized_corpus_can_qualify() {
    let m = manifest_of((0..8).map(|i| record(&format!("publisher-{i}"), false, Vec::new())).collect());
    let v = Verdict::judge(&m.summary(), FAMILY_FLOOR);
    assert!(matches!(v, Verdict::Qualifying { .. }), "{v:?}");
    assert!(v.supports_adoption());
}

#[test]
fn container_level_divergence_alone_still_qualifies() {
    let m = manifest_of(
        (0..8)
            .map(|i| record(&format!("publisher-{i}"), false, vec![Divergence::archive(Class::EntryOrder, "reordered")]))
            .collect(),
    );
    assert!(matches!(Verdict::judge(&m.summary(), FAMILY_FLOOR), Verdict::Qualifying { .. }));
}

#[test]
fn an_empty_corpus_is_not_a_pass() {
    let v = Verdict::judge(&manifest_of(Vec::new()).summary(), FAMILY_FLOOR);
    assert!(matches!(v, Verdict::NothingMeasured), "{v:?}");
    assert!(!v.supports_adoption(), "zero failures out of zero books is not evidence");
}

#[test]
fn enough_families_but_one_dominates_is_still_inconclusive() {
    let mut records: Vec<Record> = (0..100).map(|_| record("Vellum", false, Vec::new())).collect();
    for i in 0..8 {
        records.push(record(&format!("publisher-{i}"), false, Vec::new()));
    }
    let s = manifest_of(records).summary();
    assert!(s.distinct_unnormalized_families >= FAMILY_FLOOR, "families: {}", s.distinct_unnormalized_families);
    let v = Verdict::judge(&s, FAMILY_FLOOR);
    assert!(matches!(v, Verdict::Inconclusive { reason: Shortfall::TooConcentrated, .. }), "{v:?}");
    assert!(!v.supports_adoption());
}

#[test]
fn producer_versions_collapse_into_one_family() {
    let m = manifest_of((14..30).map(|i| record(&format!("Adobe InDesign {i}.0"), false, Vec::new())).collect());
    let s = m.summary();
    assert_eq!(s.distinct_unnormalized_producers, 16, "strings, the misleading count");
    assert_eq!(s.distinct_unnormalized_families, 1, "families, the count that means something");
    assert!(!Verdict::judge(&s, FAMILY_FLOOR).supports_adoption());
}

#[test]
fn many_producers_but_all_normalized_still_fails_the_gate() {
    let m = manifest_of((0..20).map(|i| record(&format!("producer-{i}"), true, Vec::new())).collect());
    let s = m.summary();
    assert_eq!(s.distinct_producers, 20, "the misleading number");
    assert_eq!(s.distinct_unnormalized_families, 0, "the number that counts");
    assert!(!Verdict::judge(&s, FAMILY_FLOOR).supports_adoption());
}

#[test]
fn a_contingent_gap_that_survives_a_real_corpus_is_reported() {
    let quiet = manifest_of(
        (0..CONTINGENT_GAP_MIN_BOOKS).map(|i| record(&format!("publisher-{i}"), false, Vec::new())).collect(),
    );
    assert_eq!(
        quiet.summary().undissolved_contingent_gaps(),
        CONTINGENT_GAPS,
        "fifty books with no timestamp divergence at all is a finding about the \
         detector, not a quiet corpus",
    );

    let observed = manifest_of(
        (0..CONTINGENT_GAP_MIN_BOOKS)
            .map(|i| {
                record(
                    &format!("publisher-{i}"),
                    false,
                    vec![
                        Divergence::entry(Class::Timestamp, "mimetype", "moved"),
                        Divergence::entry(Class::CompressionLevel, "ch1.xhtml", "relevelled"),
                    ],
                )
            })
            .collect(),
    );
    assert!(
        observed.summary().undissolved_contingent_gaps().is_empty(),
        "a corpus that does exercise them must not be reported",
    );
}

#[test]
fn a_small_corpus_says_nothing_about_a_contingent_gap() {
    let few = manifest_of((0..3).map(|i| record(&format!("publisher-{i}"), false, Vec::new())).collect());
    assert!(few.summary().undissolved_contingent_gaps().is_empty(), "three books not exercising a class is the ordinary case");
}

#[test]
fn the_verdict_names_what_it_counted() {
    let m = manifest_of((0..20).map(|i| record(&format!("calibre {i}"), true, Vec::new())).collect());
    let v = Verdict::judge(&m.summary(), FAMILY_FLOOR);
    assert_eq!(
        v,
        Verdict::Inconclusive {
            reason: Shortfall::TooFewFamilies,
            families: 0,
            family_names: Vec::new(),
            floor: 8,
            largest_family_books: 0,
            unnormalized_books: 0,
            normalized: 20,
            total: 20,
        }
    );
    let text = v.render();
    assert!(text.starts_with("INCONCLUSIVE — no entry-content divergence"), "{text}");
    assert!(text.contains("20 of 20 files show normalization"), "{text}");
    assert!(text.contains("leaving 0 distinct un-normalized\nproducer family(ies) against a floor of 8."), "{text}");
    assert!(text.contains("\nfamilies counted: (none)\n\n"), "{text}");
}

#[test]
fn a_qualifying_verdict_names_its_families() {
    let records: Vec<Record> = (0..16).map(|i| record(&format!("publisher-{} 2.{i}", i % 8), false, Vec::new())).collect();
    let v = Verdict::judge(&manifest_of(records).summary(), FAMILY_FLOOR);
    let names: Vec<String> = (0..8).map(|i| format!("publisher-{i}")).collect();
    assert_eq!(v, Verdict::Qualifying { families: 8, family_names: names, total: 16 });
    assert_eq!(
        v.render(),
        "QUALIFYING — no entry-content divergence across 16 books from\n\
         8 distinct un-normalized producer families: publisher-0, publisher-1, publisher-2, \
         publisher-3, publisher-4, publisher-5, publisher-6, publisher-7. This\n\
         result can support confirming ADR-F011."
    );
}

#[test]
fn an_inconclusive_verdict_names_the_families_it_found() {
    let records: Vec<Record> = (0..3).map(|i| record(&format!("Vellum {i}.0"), false, Vec::new()))
        .chain(std::iter::once(record("Sigil", false, Vec::new())))
        .collect();
    let text = Verdict::judge(&manifest_of(records).summary(), FAMILY_FLOOR).render();
    assert!(text.contains("leaving 2 distinct un-normalized\nproducer family(ies) against a floor of 8."), "{text}");
    assert!(text.contains("\nfamilies counted: Sigil, Vellum\n\n"), "{text}");
}

#[test]
fn the_lossless_threshold_is_ninety_nine_percent() {
    let mut records: Vec<Record> = (0..99).map(|i| record(&format!("publisher-{}", i % 10), false, Vec::new())).collect();
    records.push(record(
        "publisher-0",
        false,
        vec![Divergence::entry(Class::EntryMissing, "a.xhtml", "gone")],
    ));
    let s = manifest_of(records.clone()).summary();
    assert_eq!((s.lossless, s.entry_content_failures), (99, 1));
    assert!(!matches!(Verdict::judge(&s, FAMILY_FLOOR), Verdict::Disqualifying { .. }), "99 of 100 clears the bar");
    records.push(record(
        "publisher-1",
        false,
        vec![Divergence::entry(Class::Unclassified, "b.xhtml", "unnamed")],
    ));
    let s = manifest_of(records).summary();
    assert_eq!(
        Verdict::judge(&s, FAMILY_FLOOR),
        Verdict::Disqualifying { failures: 2, total: 101 },
    );
    assert_eq!(
        Verdict::Disqualifying { failures: 2, total: 101 }.render(),
        "DISQUALIFYING — 2 of 101 books lost entry content.\n\
         Decisive regardless of corpus quality: a normalized corpus is the\n\
         easy case, and the reader failed it. ADR-F011 resolves against\n\
         rbook; futhark-epub becomes a bespoke build over quick-xml."
    );
}

#[test]
fn nothing_measured_says_so() {
    assert_eq!(
        Verdict::NothingMeasured.render(),
        "NOTHING MEASURED — the corpus was empty. This is not a pass; zero failures out of zero books is not evidence."
    );
}

#[test]
fn the_summary_counts_list_tallies_in_key_order() {
    let mut records = vec![
        record("Vellum", false, vec![Divergence::archive(Class::Timestamp, "t")]),
        record("Adobe InDesign 17", false, Vec::new()),
        record("calibre 5", true, Vec::new()),
        record("Vellum", false, Vec::new()),
    ];
    records[1].source_hash = "other".to_owned();
    let text = manifest_of(records).summary().render_counts();
    assert!(text.starts_with(
        "normalization signals (R27 — these files' producer strings name the manager):\n     1  calibre-meta\n\n\
         divergence classes (books affected):\n"
    ), "{text}");
    assert!(text.contains(&format!("  A content   {:<24} 0\n", "content-byte-diff")), "{text}");
    assert!(text.contains(&format!("  B container  {:<24} 1\n", "timestamp")), "{text}");
    assert!(text.contains("\nproducers (all files):\n     1  Adobe InDesign 17\n     2  Vellum\n     1  calibre 5\n"), "{text}");
    assert!(text.ends_with("\nraw producer strings among un-normalized files:\n     1  Adobe InDesign 17\n     2  Vellum\n"), "{text}");
}

#[test]
fn summary_tallies_are_kept_in_key_order() {
    let records = vec![
        record("Vellum", false, vec![Divergence::archive(Class::Timestamp, "t")]),
        record("Adobe InDesign 17", false, Vec::new()),
        record("calibre 5", true, Vec::new()),
        record("Vellum", false, Vec::new()),
    ];
    let s = manifest_of(records).summary();
    let keys = |t: &Vec<(String, usize)>| t.iter().map(|(k, _)| k.clone()).collect::<Vec<_>>();
    assert_eq!(keys(&s.producers), vec!["Adobe InDesign 17", "Vellum", "calibre 5"]);
    assert_eq!(keys(&s.unnormalized_families), vec!["InDesign", "Vellum"]);
    assert!(s.by_class.windows(2).all(|w| w[0].0 < w[1].0), "{:?}", s.by_class);
    assert_eq!(s.by_class.len(), 17);
}
