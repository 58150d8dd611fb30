use std::collections::HashMap;

use narwhal_helpers::certificate::Certificate;
use narwhal_helpers::dag::DAG;

fn sample_certificate() -> Certificate {
    Certificate::new(5, 0xA11CE, 0xC0FFEE)
}

#[test]
fn test_dag_empty() {
    let dag = DAG::new();

    assert_eq!(dag.get_certificates_for_round(0), None);
    assert_eq!(dag.last_committed_round(), 0);
    assert_eq!(dag.last_committed_authors().len(), 0);
}

#[test]
fn test_dag_insert() {
    let mut dag = DAG::new();

    let certificate = sample_certificate();
    dag.insert(certificate.clone());
    let round = certificate.round();
    assert!(dag.contains_certificate_in_round(round, certificate.certificate_id()));
    assert_eq!(dag.get_certificate_for_round_with_author(round, certificate.author()), Some(certificate.clone()));
    assert_eq!(dag.get_certificate_for_round_with_id(round, certificate.certificate_id()), Some(certificate.clone()));
    assert_eq!(
        dag.get_certificates_for_round(round),
        Some(vec![(certificate.author(), certificate)].into_iter().collect())
    );
    assert_eq!(dag.last_committed_round(), 0);
    assert_eq!(dag.last_committed_authors().len(), 0);
}

#[test]
fn test_dag_commit() {
    let mut dag = DAG::new();

    let certificate = sample_certificate();
    dag.insert(certificate.clone());
    let round = certificate.round();
    assert!(dag.contains_certificate_in_round(round, certificate.certificate_id()));
    assert_eq!(dag.get_certificate_for_round_with_author(round, certificate.author()), Some(certificate.clone()));
    assert_eq!(dag.get_certificate_for_round_with_id(round, certificate.certificate_id()), Some(certificate.clone()));
    assert_eq!(
        dag.get_certificates_for_round(round),
        Some(vec![(certificate.author(), certificate.clone())].into_iter().collect())
    );
    assert_eq!(dag.last_committed_round(), 0);
    assert_eq!(dag.last_committed_authors().len(), 0);

    // Committing the certificate triggers garbage collection.
    dag.commit(certificate.clone(), 10);
    assert!(!dag.contains_certificate_in_round(round, certificate.certificate_id()));
    assert_eq!(dag.last_committed_round(), round);
    assert_eq!(dag.last_committed_authors().len(), 1);
}

#[test]
fn default_dag_is_empty() {
    let dag = DAG::default();
    assert!(dag.graph().is_empty());
    assert_eq!(dag.last_committed_round(), 0);
    assert!(dag.last_committed_authors().is_empty());
    assert!(!dag.contains_certificate_in_round(0, 0));
    assert_eq!(dag.get_certificate_for_round_with_author(3, 1), None);
    assert_eq!(dag.get_certificate_for_round_with_id(3, 1), None);
}

#[test]
fn second_insert_for_same_round_and_author_replaces_first() {
    let mut dag = DAG::new();
    let first = Certificate::new(4, 7, 100);
    let second = Certificate::new(4, 7, 200);
    dag.insert(first);
    dag.insert(second);
    assert_eq!(dag.get_certificate_for_round_with_author(4, 7), Some(second));
    assert!(!dag.contains_certificate_in_round(4, 100));
    assert!(dag.contains_certificate_in_round(4, 200));
    assert_eq!(dag.get_certificate_for_round_with_id(4, 100), None);
    assert_eq!(dag.get_certificates_for_round(4).map(|m| m.len()), Some(1));
}

#[test]
fn lookups_in_missing_round_find_nothing() {
    let mut dag = DAG::new();
    dag.insert(Certificate::new(2, 1, 11));
    assert!(!dag.contains_certificate_in_round(3, 11));
    assert!(!dag.contains_certificate_in_round(2, 12));
    assert_eq!(dag.get_certificate_for_round_with_author(2, 2), None);
    assert_eq!(dag.get_certificate_for_round_with_id(2, 12), None);
    assert_eq!(dag.get_certificates_for_round(3), None);
}

#[test]
fn commit_never_lowers_rounds() {
    let mut dag = DAG::new();
    dag.commit(Certificate::new(9, 1, 90), 100);
    assert_eq!(dag.last_committed_round(), 9);
    dag.commit(Certificate::new(4, 1, 40), 100);
    assert_eq!(dag.last_committed_round(), 9);
    assert_eq!(dag.last_committed_authors().get(&1), Some(&9));
    dag.commit(Certificate::new(6, 2, 60), 100);
    assert_eq!(dag.last_committed_round(), 9);
    assert_eq!(dag.last_committed_authors().get(&2), Some(&6));
    assert_eq!(dag.last_committed_authors().len(), 2);
    dag.commit(Certificate::new(12, 2, 120), 100);
    assert_eq!(dag.last_committed_round(), 12);
    assert_eq!(dag.last_committed_authors().get(&2), Some(&12));
}

#[test]
fn commit_drops_rounds_outside_the_window() {
    let mut dag = DAG::new();
    for round in 1..=10u64 {
        dag.insert(Certificate::new(round, 1, round * 10));
        dag.insert(Certificate::new(round, 2, round * 10 + 1));
    }
    // Author 3 commits round 10 with a window of 3: rounds r with r + 3 <= 10 go.
    dag.commit(Certificate::new(10, 3, 999), 3);
    assert_eq!(dag.last_committed_round(), 10);
    let rounds: Vec<u64> = dag.graph().keys().copied().collect();
    assert_eq!(rounds, vec![8, 9, 10]);
    for r in rounds {
        assert!(r + 3 > dag.last_committed_round());
    }
}

#[test]
fn commit_drops_author_certificates_at_or_below_its_round() {
    let mut dag = DAG::new();
    for round in 1..=5u64 {
        dag.insert(Certificate::new(round, 1, round * 10));
        dag.insert(Certificate::new(round, 2, round * 10 + 1));
    }
    dag.insert(Certificate::new(6, 1, 60));
    dag.commit(Certificate::new(3, 1, 30), 50);
    for round in 1..=3u64 {
        assert_eq!(dag.get_certificate_for_round_with_author(round, 1), None);
        assert!(dag.get_certificate_for_round_with_author(round, 2).is_some());
    }
    for round in 4..=5u64 {
        assert!(dag.get_certificate_for_round_with_author(round, 1).is_some());
    }
    // The later round of the committing author is kept.
    assert_eq!(dag.get_certificate_for_round_with_author(6, 1), Some(Certificate::new(6, 1, 60)));
}

#[test]
fn commit_removes_round_left_empty() {
    let mut dag = DAG::new();
    dag.insert(Certificate::new(2, 1, 20));
    dag.insert(Certificate::new(3, 1, 30));
    dag.insert(Certificate::new(3, 2, 31));
    dag.commit(Certificate::new(3, 1, 30), 10);
    assert_eq!(dag.get_certificates_for_round(2), None);
    let remaining = dag.get_certificates_for_round(3).unwrap();
    let mut expected = HashMap::new();
    expected.insert(2u64, Certificate::new(3, 2, 31));
    assert_eq!(remaining, expected);
}

#[test]
fn commit_window_does_not_overflow() {
    let mut dag = DAG::new();
    dag.insert(Certificate::new(1, 1, 10));
    dag.insert(Certificate::new(u64::MAX, 2, 20));
    dag.commit(Certificate::new(u64::MAX, 3, 30), u64::MAX);
    assert_eq!(dag.last_committed_round(), u64::MAX);
    // 1 + u64::MAX overflows: never prunable.
    assert!(dag.contains_certificate_in_round(1, 10));
    assert!(dag.contains_certificate_in_round(u64::MAX, 20));
}

#[test]
fn commit_with_zero_window_keeps_only_later_rounds() {
    let mut dag = DAG::new();
    dag.insert(Certificate::new(5, 1, 50));
    dag.insert(Certificate::new(6, 2, 60));
    dag.commit(Certificate::new(5, 3, 55), 0);
    assert_eq!(dag.get_certificates_for_round(5), None);
    assert!(dag.contains_certificate_in_round(6, 60));
}
