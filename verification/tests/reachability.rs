//! Every variant carries a witness reached through the real code path, or is
//! named as lacking one.

use std::collections::BTreeSet;

use futhark_f2::archive::{Archive, Entry};
use futhark_f2::catalogue::{self, FeatureState};
use futhark_f2::classify::classify;
use futhark_f2::floor::FeatureFloor;
use futhark_f2::manifest::{Manifest, Record, Summary, Tier};
use futhark_f2::provenance::{Disposition, Dispositions, WideningGap};
use futhark_f2::roundtrip::Outcome;
use futhark_f2::taxonomy::{Class, Divergence};
use futhark_f2::verdict::{Shortfall, Verdict, FAMILY_FLOOR};
use futhark_f2::{fixtures, selftest};

fn entry(name: &str, data: &[u8]) -> Entry {
    Entry {
        name: name.to_owned(),
        data: data.to_vec(),
        method: "Deflated".to_owned(),
        compressed_size: data.len() as u64,
        modified: None,
        declared_crc: 0,
        declared_size: data.len() as u64,
        comment: String::new(),
        extra: Vec::new(),
    }
}

fn book(xhtml: &str) -> Archive {
    Archive {
        entries: vec![
            entry("mimetype", b"application/epub+zip"),
            entry("OEBPS/package.opf", b"<package version=\"3.0\"/>"),
            entry("OEBPS/ch1.xhtml", xhtml.as_bytes()),
        ],
        comment: String::new(),
    }
}

#[test]
fn every_feature_state_is_reachable_through_accumulate() {
    let mut states = catalogue::initial_states();
    catalogue::accumulate(&mut states, &book("<!-- a comment --><html/>"));

    let reached: Vec<FeatureState> = states.values();
    assert!(reached.contains(&FeatureState::Observed), "{reached:?}");
    assert!(reached.contains(&FeatureState::CheckedAndAbsent), "{reached:?}");
    assert!(reached.contains(&FeatureState::NotCovered), "{reached:?}");
}

/// Divergence classes the fixture corpus cannot produce, and why.
const CLASS_NO_WITNESS: &[(&str, &str)] = &[
    (
        "timestamp",
        "the fixture writer pins timestamps on purpose, so that every other \
         class is measured against a constant; the real run observes it",
    ),
    (
        "compression-level",
        "requires two writers at different deflate levels, which the in-memory \
         fixture writer has no way to vary",
    ),
    (
        "unclassified",
        "reachable only when the instrument meets a divergence it cannot name; \
         a fixture for it would be a fixture for the classifier's own blind spot",
    ),
];

#[test]
fn the_classes_without_a_fixture_witness_are_exactly_the_named_ones() {
    let mut reached: BTreeSet<&'static str> = BTreeSet::new();
    for f in fixtures::all().expect("fixtures build") {
        let a = selftest::read_bytes(&f.source).expect("source readable");
        let b = selftest::read_bytes(&f.roundtrip).expect("roundtrip readable");
        for d in classify(&a, &b) {
            reached.insert(d.class.slug());
        }
    }

    let unreached: BTreeSet<&str> = Class::ALL
        .iter()
        .map(|c| c.slug())
        .filter(|s| !reached.contains(s))
        .collect();
    let declared: BTreeSet<&str> = CLASS_NO_WITNESS.iter().map(|(id, _)| *id).collect();

    assert_eq!(unreached, declared, "the set of classes with no witness moved");
}

fn record(producer: &str, normalized: bool, divergences: Vec<Divergence>) -> Record {
    Record {
        source_hash: format!("h-{producer}-{normalized}"),
        source_bytes: 1,
        tier: Tier::B,
        path: None,
        producer: Some(producer.to_owned()),
        normalized_by: if normalized { vec!["calibre-meta".to_owned()] } else { Vec::new() },
        epub_version: Some("3.0".to_owned()),
        entry_count: 4,
        divergences,
        outcome: None,
        classifier_version: "test".to_owned(),
    }
}

fn summary_of(records: Vec<Record>) -> Summary {
    let mut m = Manifest::new();
    m.records = records;
    m.summary()
}

#[test]
fn every_verdict_is_reachable_through_judge() {
    let empty = Verdict::judge(&summary_of(Vec::new()), FAMILY_FLOOR);
    assert!(matches!(empty, Verdict::NothingMeasured), "{empty:?}");

    let failed = Verdict::judge(
        &summary_of(vec![record(
            "publisher",
            false,
            vec![Divergence::entry(Class::ContentByteDiff, "ch1.xhtml", "differs")],
        )]),
        FAMILY_FLOOR,
    );
    assert!(matches!(failed, Verdict::Disqualifying { .. }), "{failed:?}");

    let thin = Verdict::judge(
        &summary_of((0..20).map(|i| record(&format!("calibre {i}"), true, Vec::new())).collect()),
        FAMILY_FLOOR,
    );
    assert!(
        matches!(thin, Verdict::Inconclusive { reason: Shortfall::TooFewFamilies, .. }),
        "{thin:?}"
    );

    let mut lopsided: Vec<Record> = (0..100).map(|_| record("Vellum", false, Vec::new())).collect();
    for i in 0..8 {
        lopsided.push(record(&format!("publisher-{i}"), false, Vec::new()));
    }
    let concentrated = Verdict::judge(&summary_of(lopsided), FAMILY_FLOOR);
    assert!(
        matches!(concentrated, Verdict::Inconclusive { reason: Shortfall::TooConcentrated, .. }),
        "{concentrated:?}"
    );

    let diverse = Verdict::judge(
        &summary_of((0..8).map(|i| record(&format!("publisher-{i}"), false, Vec::new())).collect()),
        FAMILY_FLOOR,
    );
    assert!(matches!(diverse, Verdict::Qualifying { .. }), "{diverse:?}");
}

#[test]
fn every_widening_gap_is_reachable_through_widen() {
    let floor = FeatureFloor::new(catalogue::initial_states(), &summary_of(Vec::new()));

    assert!(matches!(floor.widen(&Dispositions::new()), Err(WideningGap::Unsettled { .. })));

    let mut unknown = Dispositions::new();
    unknown.insert("not-a-feature".to_owned(), Disposition::Excluded { because: "typo".to_owned() });
    assert!(matches!(floor.widen(&unknown), Err(WideningGap::UnknownFeature { .. })));

    let mut blank = Dispositions::new();
    blank.insert("zip64-container".to_owned(), Disposition::Excluded { because: " ".to_owned() });
    assert!(matches!(floor.widen(&blank), Err(WideningGap::EmptyReason { .. })));
}

#[test]
fn the_fixture_tier_has_no_witness_and_that_is_recorded() {
    let r = record("x", false, Vec::new());
    assert_eq!(r.tier, Tier::B);
}

#[test]
fn a_refusal_produces_no_output_to_compare() {
    let refused = Outcome::ReadFailed { error: "not a zip archive".to_owned() };
    assert!(!refused.produced_output());
    assert!(Outcome::RoundTripped.produced_output());
}
