use plainwire::findings::{catalog, spec, Counts, Finding, Severity};
use plainwire::span::Span;

#[test]
fn every_code_is_unique_and_well_formed() {
    // Codes must be unique, in PWnnn form, with a slug and non-empty text.
    let mut seen = std::collections::BTreeSet::new();
    let cat = catalog();
    assert_eq!(cat.len(), 20);
    for s in &cat {
        assert!(seen.insert(s.code), "duplicate code {}", s.code);
        assert!(s.code.starts_with("PW"), "bad code {}", s.code);
        assert_eq!(s.code.len(), 5, "code {} not PWnnn", s.code);
        assert!(s.code[2..].chars().all(|c| c.is_ascii_digit()));
        assert!(!s.slug.is_empty());
        assert!(!s.title.is_empty());
        assert!(s.description.len() > 20, "thin description for {}", s.code);
    }
}

#[test]
fn slugs_are_unique() {
    let mut seen = std::collections::BTreeSet::new();
    for s in &catalog() {
        assert!(seen.insert(s.slug), "duplicate slug {}", s.slug);
    }
}

#[test]
fn new_fills_metadata_from_catalog() {
    let f = Finding::new("PW001", "detail here".to_string(), Some(Span::new(0, 10)));
    assert_eq!(f.slug, "both-cl-te");
    assert_eq!(f.severity, Severity::Error);
    assert_eq!(
        f.title,
        "Content-Length and Transfer-Encoding are both present"
    );
    assert_eq!(f.detail, "detail here");
}

#[test]
fn severity_rank_orders_error_over_warn_over_info() {
    assert!(Severity::Error.rank() > Severity::Warn.rank());
    assert!(Severity::Warn.rank() > Severity::Info.rank());
}

#[test]
fn counts_and_thresholds() {
    let fs = vec![
        Finding::new("PW001", "a".to_string(), None),
        Finding::new("PW008", "b".to_string(), None),
        Finding::new("PW012", "c".to_string(), None),
    ];
    let c = Counts::of(&fs);
    assert_eq!(c.error, 1);
    assert_eq!(c.warn, 1);
    assert_eq!(c.info, 1);
    assert_eq!(c.total(), 3);
    assert!(c.any_at_least(Severity::Error));
    assert!(c.any_at_least(Severity::Info));

    let only_info = Counts::of(&[Finding::new("PW012", "c".to_string(), None)]);
    assert!(!only_info.any_at_least(Severity::Error));
    assert!(only_info.any_at_least(Severity::Info));
}

#[test]
fn spec_looks_up_by_code() {
    let s = spec("PW017");
    assert_eq!(s.slug, "trailing-body-bytes");
    assert_eq!(s.severity, Severity::Warn);
    assert_eq!(spec("PW020").slug, "missing-final-chunk");
    assert_eq!(Severity::Info.label(), "info");
}

#[test]
fn counts_total_equals_number_of_findings() {
    let fs = vec![
        Finding::new("PW002", "a".to_string(), None),
        Finding::new("PW003", "b".to_string(), None),
        Finding::new("PW019", "c".to_string(), None),
        Finding::new("PW012", "d".to_string(), None),
    ];
    let c = Counts::of(&fs);
    assert_eq!(c.total(), fs.len());
    assert_eq!((c.error, c.warn, c.info), (2, 1, 1));
    assert!(c.any_at_least(Severity::Warn));
}
