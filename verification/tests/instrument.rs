//! The instrument validating itself: the tests fail if the classifier drifts.

use futhark_f2::classify::classify;
use futhark_f2::fixtures;
use futhark_f2::fixtures::Fixture;
use futhark_f2::selftest::{closing, describe, read_bytes, report, FixtureCheck};
use futhark_f2::taxonomy::{Class, Divergence, Group};

#[test]
fn every_fixture_classifies_to_exactly_its_declared_set() {
    for f in fixtures::all().expect("build fixtures") {
        let source = read_bytes(&f.source).expect("read source fixture");
        let roundtrip = read_bytes(&f.roundtrip).expect("read roundtrip fixture");

        let mut got: Vec<Class> = classify(&source, &roundtrip).iter().map(|d| d.class).collect();
        got.sort_unstable();
        got.dedup();

        let mut want = f.expect.to_vec();
        want.sort_unstable();

        assert_eq!(got, want, "fixture {}", f.id);
    }
}

#[test]
fn identical_containers_produce_no_divergence() {
    let fixture = fixtures::all()
        .expect("build fixtures")
        .into_iter()
        .find(|f| f.id == "identical")
        .expect("identity fixture present");
    let a = read_bytes(&fixture.source).expect("read source");
    let b = read_bytes(&fixture.roundtrip).expect("read roundtrip");
    assert!(
        classify(&a, &b).is_empty(),
        "a classifier that reports divergence between a file and itself is not measuring anything",
    );
}

#[test]
fn only_entry_content_and_unclassified_bear_on_losslessness() {
    for c in Class::ALL {
        let expected = matches!(c.group(), Group::EntryContent | Group::Unclassified);
        assert_eq!(c.bears_on_losslessness(), expected, "{}", c.slug());
    }
}

#[test]
fn unclassified_counts_against_the_pass_criterion() {
    assert!(
        Class::Unclassified.bears_on_losslessness(),
        "scoring an unnameable divergence as harmless is an error",
    );
}

#[test]
fn the_self_test_passes_on_every_fixture() {
    for f in fixtures::all().expect("build fixtures") {
        let check = futhark_f2::selftest::check_fixture(&f).expect("fixture readable");
        assert!(check.ok, "fixture {}", f.id);
    }
}

#[test]
fn describing_classes_joins_their_slugs() {
    assert_eq!(describe(&Vec::new()), "no divergence");
    assert_eq!(describe(&vec![Class::EntryOrder]), "entry-order");
    assert_eq!(describe(&vec![Class::EntryOrder, Class::MimetypeNotFirst]), "entry-order, mimetype-not-first");
}

#[test]
fn the_self_test_report_names_what_it_expected_and_what_it_found() {
    let f = Fixture { id: "t", source: Vec::new(), roundtrip: Vec::new(), expect: vec![Class::Comment, Class::EntryOrder] };
    let failing = FixtureCheck { ok: false, found: vec![Divergence::entry(Class::Timestamp, "mimetype", "x")] };
    assert_eq!(
        report(&f, &failing),
        format!("  FAIL  {:<22} expected [entry-order, comment], got [timestamp]\n           timestamp Some(\"mimetype\") x\n", "t")
    );
    let passing = FixtureCheck { ok: true, found: Vec::new() };
    assert_eq!(report(&f, &passing), format!("  ok    {:<22} no divergence\n", "t"));
    assert_eq!(closing(0), "\nclassifier 1.0.0: 0 failing fixture(s)");
}
