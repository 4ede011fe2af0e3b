use tictactoe::store::{RecordStore, StoreError};

fn stats(s: &RecordStore, name: &[u8]) -> Option<(u64, u64)> {
    s.stats_of(name)
}

#[test]
fn register_appends_both_with_zero_counters() {
    let mut s = RecordStore::new();
    assert!(s.register(b"Ann", b"Bob").is_ok());
    assert_eq!(s.len(), 2);
    assert_eq!(stats(&s, b"Ann"), Some((0, 0)));
    assert_eq!(stats(&s, b"Bob"), Some((0, 0)));
    assert_eq!(stats(&s, b"Cara"), None);
}

#[test]
fn register_trims_the_stored_names() {
    let mut s = RecordStore::new();
    assert!(s.register(b"  Ann\t", b"Bob\r\n").is_ok());
    assert_eq!(s.entry_at(0).name, b"Ann".to_vec());
    assert_eq!(s.entry_at(1).name, b"Bob".to_vec());
}

#[test]
fn scenario_register_case_and_whitespace_variants_conflict() {
    let mut s = RecordStore::new();
    assert!(s.register(b"Ann", b"Bob").is_ok());
    let r = s.register(b"ann ", b" Bob");
    match r {
        Err(StoreError::DuplicateIdentity(ns)) => {
            assert_eq!(ns, vec![b"ann".to_vec(), b"Bob".to_vec()]);
        }
        _ => panic!("expected DuplicateIdentity for both names"),
    }
    // Nothing was half-written.
    assert_eq!(s.len(), 2);
}

#[test]
fn repeated_register_leaves_registry_bytes_unchanged() {
    let mut s = RecordStore::new();
    assert!(s.register(b"Ann", b"Bob").is_ok());
    let after_first = s.persist_registry();
    assert!(s.register(b"Ann", b"Bob").is_err());
    assert_eq!(s.persist_registry(), after_first);
    assert_eq!(after_first, b"Ann\nBob\n".to_vec());
}

#[test]
fn register_pair_colliding_with_itself_is_refused() {
    let mut s = RecordStore::new();
    let r = s.register(b"Ann", b"ANN ");
    match r {
        Err(StoreError::DuplicateIdentity(ns)) => {
            assert_eq!(ns, vec![b"ANN".to_vec()]);
        }
        _ => panic!("expected DuplicateIdentity for the second name"),
    }
    assert_eq!(s.len(), 0);
}

#[test]
fn register_refuses_unusable_names() {
    let mut s = RecordStore::new();
    match s.register(b"   ", b"Bob") {
        Err(StoreError::InvalidIdentity(n)) => assert_eq!(n, Vec::<u8>::new()),
        _ => panic!("expected InvalidIdentity for a blank name"),
    }
    match s.register(b"Ann Smith", b"Bob") {
        Err(StoreError::InvalidIdentity(n)) => assert_eq!(n, b"Ann Smith".to_vec()),
        _ => panic!("expected InvalidIdentity for an inner space"),
    }
    assert_eq!(s.len(), 0);
}

#[test]
fn verify_reports_the_missing_names() {
    let mut s = RecordStore::new();
    assert!(s.register(b"Ann", b"Bob").is_ok());
    assert!(s.verify(b"ann", b"BOB").is_ok());
    match s.verify(b"Ann", b"Cara") {
        Err(StoreError::UnknownIdentity(ns)) => assert_eq!(ns, vec![b"Cara".to_vec()]),
        _ => panic!("expected UnknownIdentity for Cara"),
    }
}

#[test]
fn record_result_increments_exactly_once() {
    let mut s = RecordStore::new();
    assert!(s.register(b"Ann", b"Bob").is_ok());
    assert!(s.counters_in_range());
    assert!(s.record_result(b"Ann", b"Bob").is_ok());
    assert_eq!(stats(&s, b"Ann"), Some((1, 0)));
    assert_eq!(stats(&s, b"Bob"), Some((0, 1)));
    assert!(s.record_result(b"bob ", b"ANN").is_ok());
    assert_eq!(stats(&s, b"Ann"), Some((1, 1)));
    assert_eq!(stats(&s, b"Bob"), Some((1, 1)));
}

#[test]
fn scenario_record_result_without_registration_changes_nothing() {
    let mut s = RecordStore::new();
    let ledger_before = s.persist_ledger();
    let r = s.record_result(b"Ann", b"Bob");
    match r {
        Err(StoreError::UnknownIdentity(ns)) => {
            assert_eq!(ns, vec![b"Ann".to_vec(), b"Bob".to_vec()]);
        }
        _ => panic!("expected UnknownIdentity for both names"),
    }
    assert_eq!(s.persist_ledger(), ledger_before);
    assert_eq!(s.len(), 0);
}

#[test]
fn ledger_is_written_ranked_by_wins_then_registration_order() {
    let mut s = RecordStore::new();
    assert!(s.register(b"Ann", b"Bob").is_ok());
    assert!(s.register(b"Cara", b"Dan").is_ok());
    assert!(s.record_result(b"Ann", b"Bob").is_ok());
    assert!(s.record_result(b"Ann", b"Bob").is_ok());
    assert!(s.record_result(b"Cara", b"Ann").is_ok());
    // Ann 2-1, Bob 0-2, Cara 1-0, Dan 0-0.
    let expected = b"rank name wins losses\n\
                     1 Ann 2 1\n\
                     2 Cara 1 0\n\
                     3 Bob 0 2\n\
                     4 Dan 0 0\n"
        .to_vec();
    assert_eq!(s.persist_ledger(), expected);
    assert_eq!(s.persist_registry(), b"Ann\nBob\nCara\nDan\n".to_vec());
}

#[test]
fn ranked_sorts_by_wins_and_keeps_ties_in_registration_order() {
    let mut s = RecordStore::new();
    assert!(s.register(b"Ann", b"Bob").is_ok());
    assert!(s.register(b"Cara", b"Dan").is_ok());
    assert!(s.record_result(b"Dan", b"Ann").is_ok());
    // Ann 0-1, Bob 0-0, Cara 0-0, Dan 1-0: Dan first, then the three
    // zero-win entries in registration order.
    let rows = s.ranked();
    let names: Vec<Vec<u8>> = rows.iter().map(|e| e.name.clone()).collect();
    assert_eq!(
        names,
        vec![b"Dan".to_vec(), b"Ann".to_vec(), b"Bob".to_vec(), b"Cara".to_vec()]
    );
    assert_eq!(rows[0].wins, 1);
    assert_eq!(rows[1].losses, 1);
}

#[test]
fn persist_then_load_reproduces_the_store() {
    let mut s = RecordStore::new();
    assert!(s.register(b"Ann", b"Bob").is_ok());
    assert!(s.register(b"Cara", b"Dan").is_ok());
    assert!(s.record_result(b"Ann", b"Bob").is_ok());
    assert!(s.record_result(b"Cara", b"Ann").is_ok());
    let registry = s.persist_registry();
    let ledger = s.persist_ledger();
    let (loaded, report) = RecordStore::load(Some(&registry), Some(&ledger));
    assert!(report.registry_skipped.is_empty());
    assert!(report.ledger_skipped.is_empty());
    assert_eq!(loaded.len(), s.len());
    for name in [&b"Ann"[..], b"Bob", b"Cara", b"Dan"] {
        assert_eq!(loaded.stats_of(name), s.stats_of(name));
    }
    // Registration order survives too.
    for i in 0..s.len() {
        assert_eq!(loaded.entry_at(i).name, s.entry_at(i).name);
    }
}

#[test]
fn load_is_independent_of_ledger_row_order() {
    let registry = b"Ann\nBob\nCara\n".to_vec();
    let one = b"rank name wins losses\n1 Ann 2 0\n2 Cara 1 1\n3 Bob 0 2\n".to_vec();
    let other = b"rank name wins losses\n9 Bob 0 2\n5 Cara 1 1\n7 Ann 2 0\n".to_vec();
    let (a, _) = RecordStore::load(Some(&registry), Some(&one));
    let (b, _) = RecordStore::load(Some(&registry), Some(&other));
    for name in [&b"Ann"[..], b"Bob", b"Cara"] {
        assert_eq!(a.stats_of(name), b.stats_of(name));
    }
    // The stored rank column is recomputed, not trusted.
    assert_eq!(a.persist_ledger(), b.persist_ledger());
}

#[test]
fn scenario_short_ledger_line_is_skipped_not_fatal() {
    let registry = b"Ann\nBob\nCara\n".to_vec();
    let ledger = b"rank name wins losses\n\
                   1 Ann 2 1\n\
                   Bob 7\n\
                   2 Bob 1 0\n"
        .to_vec();
    let (s, report) = RecordStore::load(Some(&registry), Some(&ledger));
    assert_eq!(report.ledger_skipped, vec![2]);
    assert_eq!(s.stats_of(b"Ann"), Some((2, 1)));
    assert_eq!(s.stats_of(b"Bob"), Some((1, 0)));
    assert_eq!(s.stats_of(b"Cara"), Some((0, 0)));
}

#[test]
fn unparsable_counters_skip_the_line() {
    let registry = b"Ann\nBob\n".to_vec();
    let ledger = b"rank name wins losses\n1 Ann two 1\n2 Bob 1 0\n".to_vec();
    let (s, report) = RecordStore::load(Some(&registry), Some(&ledger));
    assert_eq!(report.ledger_skipped, vec![1]);
    assert_eq!(s.stats_of(b"Ann"), Some((0, 0)));
    assert_eq!(s.stats_of(b"Bob"), Some((1, 0)));
}

#[test]
fn missing_files_load_as_an_empty_store() {
    let (s, report) = RecordStore::load(None, None);
    assert_eq!(s.len(), 0);
    assert!(report.registry_skipped.is_empty());
    assert!(report.ledger_skipped.is_empty());
    assert_eq!(s.persist_registry(), Vec::<u8>::new());
    assert_eq!(s.persist_ledger(), b"rank name wins losses\n".to_vec());
}

#[test]
fn registry_blank_lines_ignored_bad_lines_reported() {
    let registry = b"Ann\n\n  \nBob,x\nann\nCara\n".to_vec();
    let (s, report) = RecordStore::load(Some(&registry), None);
    // Line 3 holds a comma, line 4 repeats Ann under case folding.
    assert_eq!(report.registry_skipped, vec![3, 4]);
    assert_eq!(s.len(), 2);
    assert_eq!(s.entry_at(0).name, b"Ann".to_vec());
    assert_eq!(s.entry_at(1).name, b"Cara".to_vec());
}

#[test]
fn ledger_names_missing_from_registry_are_adopted() {
    let registry = b"Ann\n".to_vec();
    let ledger = b"rank name wins losses\n1 Zoe 3 0\n2 Ann 1 2\n".to_vec();
    let (s, report) = RecordStore::load(Some(&registry), Some(&ledger));
    assert!(report.ledger_skipped.is_empty());
    assert_eq!(s.len(), 2);
    assert_eq!(s.stats_of(b"Zoe"), Some((3, 0)));
    assert_eq!(s.stats_of(b"Ann"), Some((1, 2)));
    // The adopted name now persists in the registry as well.
    assert_eq!(s.persist_registry(), b"Ann\nZoe\n".to_vec());
}

#[test]
fn ledger_fields_may_be_comma_separated() {
    let registry = b"Ann\nBob\n".to_vec();
    let ledger = b"rank,name,wins,losses\n1,Ann,4,2\n2,Bob,2,4\n".to_vec();
    let (s, report) = RecordStore::load(Some(&registry), Some(&ledger));
    assert!(report.ledger_skipped.is_empty());
    assert_eq!(s.stats_of(b"Ann"), Some((4, 2)));
    assert_eq!(s.stats_of(b"Bob"), Some((2, 4)));
}
