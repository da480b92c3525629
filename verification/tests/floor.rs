//! A floor cannot be read as a specification without someone saying what the
//! corpus could not settle and why.

use futhark_f2::archive::{Archive, Entry};
use futhark_f2::catalogue::{FeatureState, FeatureStates};
use futhark_f2::floor::FeatureFloor;
use futhark_f2::manifest::{Manifest, Record, Summary, Tier};
use futhark_f2::provenance::{Disposition, Dispositions, WideningGap};

fn record(producer: &str, normalized: bool) -> Record {
    Record {
        source_hash: format!("hash-{producer}-{normalized}"),
        source_bytes: 1,
        tier: Tier::B,
        path: None,
        producer: Some(producer.to_owned()),
        normalized_by: if normalized { vec!["calibre-meta".to_owned()] } else { Vec::new() },
        epub_version: Some("3.0".to_owned()),
        entry_count: 4,
        divergences: Vec::new(),
        outcome: None,
        classifier_version: "test".to_owned(),
    }
}

fn summary_of(records: Vec<Record>) -> Summary {
    let mut m = Manifest::new();
    m.records = records;
    m.summary()
}

/// Eight evenly-held families, nothing rewritten.
fn diverse_un_normalized() -> Summary {
    summary_of((0..8).map(|i| record(&format!("publisher-{i}"), false)).collect())
}

/// Twenty books, every one through a library manager.
fn normalized() -> Summary {
    summary_of((0..20).map(|i| record(&format!("producer-{i}"), true)).collect())
}

/// The states a corpus of featureless books produces, by running the real
/// detectors.
fn nothing_observed() -> FeatureStates {
    let plain = Archive {
        entries: vec![Entry {
            name: "mimetype".to_owned(),
            data: b"application/epub+zip".to_vec(),
            method: "Stored".to_owned(),
            compressed_size: 20,
            modified: None,
            declared_crc: 0,
            declared_size: 20,
            comment: String::new(),
            extra: Vec::new(),
        }],
        comment: String::new(),
    };
    let mut states = futhark_f2::catalogue::initial_states();
    futhark_f2::catalogue::accumulate(&mut states, &plain);
    states
}

fn all_with(ids: Vec<&'static str>, make: impl Fn() -> Disposition) -> Dispositions {
    let mut d = Dispositions::new();
    for id in ids {
        d.insert(id.to_owned(), make());
    }
    d
}

#[test]
fn absence_is_evidence_only_on_an_un_normalized_diverse_corpus() {
    assert!(FeatureFloor::new(nothing_observed(), &diverse_un_normalized()).provenance.absence_is_evidence());
    assert!(
        !FeatureFloor::new(nothing_observed(), &normalized()).provenance.absence_is_evidence(),
        "a manager's writer strips exactly the constructs being enumerated, so \
         its silence is about the writer",
    );
    assert!(
        !FeatureFloor::new(nothing_observed(), &summary_of(Vec::new())).provenance.absence_is_evidence(),
        "an empty corpus finds nothing, which is not the same as there being nothing",
    );
}

#[test]
fn on_a_normalized_corpus_checked_and_absent_is_as_unsettled_as_not_covered() {
    let floor = FeatureFloor::new(nothing_observed(), &normalized());
    assert_eq!(
        floor.unsettled().len(),
        floor.counts().catalogued,
        "every feature is unsettled: none was observed, and this corpus has not \
         earned the right to have its silence believed",
    );
    assert!(matches!(floor.widen(&Dispositions::new()), Err(WideningGap::Unsettled { .. })));
}

#[test]
fn a_floor_cannot_become_a_specification_without_widening() {
    let floor = FeatureFloor::new(nothing_observed(), &diverse_un_normalized());
    let unsettled = floor.unsettled();
    assert!(!unsettled.is_empty(), "the uncovered entries are unsettled however good the corpus is");
    let err = floor.widen(&Dispositions::new()).expect_err("an undispositioned floor must not widen");
    match err {
        WideningGap::Unsettled { outstanding } => {
            assert_eq!(outstanding.len(), unsettled.len());
        }
        other => panic!("wrong gap: {other:?}"),
    }
}

#[test]
fn widening_records_the_corpus_it_widened_from() {
    let floor = FeatureFloor::new(nothing_observed(), &normalized());
    let dispositions = all_with(floor.unsettled(), || Disposition::RequireAnyway {
        because: "unsettled by a normalized corpus; preserve rather than guess".to_owned(),
    });
    let reqs = floor.widen(&dispositions).expect("fully dispositioned");
    assert_eq!(reqs.must_preserve().len(), floor.counts().catalogued);
    assert_eq!(
        reqs.provenance().normalized,
        20,
        "the corpus travels with the requirements — it is carried by the type, \
         not by a sentence someone has to remember to repeat",
    );
    assert_eq!(reqs.catalogue_version(), floor.catalogue_version);
}

#[test]
fn an_excluded_feature_keeps_its_reason() {
    let floor = FeatureFloor::new(nothing_observed(), &diverse_un_normalized());
    let dispositions = all_with(floor.unsettled(), || Disposition::Excluded {
        because: "out of scope for the first release".to_owned(),
    });
    let reqs = floor.widen(&dispositions).expect("fully dispositioned");
    assert!(reqs.must_preserve().is_empty());
    assert_eq!(reqs.excluded().len(), dispositions.len());
    assert!(reqs.excluded().iter().all(|e| !e.because.is_empty()));
}

#[test]
fn a_disposition_without_a_reason_is_rejected() {
    let floor = FeatureFloor::new(nothing_observed(), &diverse_un_normalized());
    let mut d = Dispositions::new();
    d.insert("zip64-container".to_owned(), Disposition::Excluded { because: "   ".to_owned() });
    assert!(
        matches!(floor.widen(&d), Err(WideningGap::EmptyReason { .. })),
        "a blank reason is the same silence wearing a decision's clothes",
    );
}

#[test]
fn a_typo_in_a_feature_id_is_an_error_rather_than_coverage() {
    let floor = FeatureFloor::new(nothing_observed(), &diverse_un_normalized());
    let mut d = Dispositions::new();
    d.insert("zip64-containers".to_owned(), Disposition::Excluded { because: "no large-file corpus".to_owned() });
    assert!(
        matches!(floor.widen(&d), Err(WideningGap::UnknownFeature { .. })),
        "an id nobody recognises must not be counted as a feature dispositioned",
    );
}

#[test]
fn observed_features_are_requirements_without_anyone_deciding_anything() {
    let mut states = nothing_observed();
    states.insert("xml-comment".to_owned(), FeatureState::Observed);
    let floor = FeatureFloor::new(states, &diverse_un_normalized());

    assert_eq!(floor.observed(), vec!["xml-comment"]);
    assert!(
        !floor.unsettled().contains(&"xml-comment"),
        "one book containing a comment settles it; nothing to decide",
    );
    assert_eq!(floor.counts().observed, 1);
}

#[test]
fn counts_add_up_to_the_catalogue() {
    let floor = FeatureFloor::new(nothing_observed(), &normalized());
    let c = floor.counts();
    assert_eq!(c.observed + c.checked_and_absent + c.not_covered, c.catalogued);
    assert_eq!(c.catalogued, 26);
}

#[test]
fn widening_sorts_and_merges_what_must_be_preserved() {
    let mut states = nothing_observed();
    states.insert("xml-comment".to_owned(), FeatureState::Observed);
    let floor = FeatureFloor::new(states, &diverse_un_normalized());
    let mut d = Dispositions::new();
    for id in floor.unsettled() {
        d.insert(id.to_owned(), Disposition::Excluded { because: "later".to_owned() });
    }
    d.insert("zip64-container".to_owned(), Disposition::RequireAnyway { because: "large books exist".to_owned() });
    d.insert("xml-comment".to_owned(), Disposition::RequireAnyway { because: "already seen".to_owned() });
    let reqs = floor.widen(&d).expect("fully dispositioned");
    assert_eq!(reqs.must_preserve(), &vec!["xml-comment".to_owned(), "zip64-container".to_owned()]);
    let excluded: Vec<&str> = reqs.excluded().iter().map(|e| e.id.as_str()).collect();
    let mut sorted = excluded.clone();
    sorted.sort_unstable();
    assert_eq!(excluded, sorted, "exclusions come out in id order");
    assert!(!excluded.contains(&"zip64-container"));
}

#[test]
fn a_later_disposition_replaces_an_earlier_one() {
    let mut d = Dispositions::new();
    d.insert("b".to_owned(), Disposition::Excluded { because: "first".to_owned() });
    d.insert("a".to_owned(), Disposition::Excluded { because: "x".to_owned() });
    d.insert("b".to_owned(), Disposition::RequireAnyway { because: "second".to_owned() });
    assert_eq!(d.len(), 2);
    assert_eq!(d.id(0), "a");
    assert_eq!(d.id(1), "b");
    assert_eq!(d.decision(1).because(), "second");
    assert!(d.contains_key("a") && !d.contains_key("c"));
}

#[test]
fn the_report_states_the_corpus_and_every_feature() {
    let floor = FeatureFloor::new(nothing_observed(), &normalized());
    let text = floor.render();
    let c = floor.counts();
    assert_eq!(c.observed, 0);
    let head = format!(
        "FEATURE FLOOR — catalogue 1.0.0, 20 books (20 normalized)\n\
         This is a lower bound. It is not a specification for futhark-epub\n\
         and cannot become one without widening (ADR-F051).\n\n\
         26 catalogued: 0 observed, {} checked and absent, {} never looked at\n\
         absence in this corpus is evidence: false\n\nInfoset\n",
        c.checked_and_absent, c.not_covered
    );
    assert!(text.starts_with(&head), "{text}");
    assert!(text.contains(&format!("  {:<20} {:<42} {}\n", "NotCovered", "directory-entry", "Explicit directory records change the entry list")));
    assert!(text.contains("\nContainer\n") && text.contains("\nPackage\n"));
    assert!(text.ends_with(&format!("\nunsettled by this corpus (26): {}\n", floor.unsettled().join(", "))));
}
