use harvest::selection::{
    AbstractOp, AbstractOpLabel, CAnalysisResult, Complexity, Cost, RustBackend, RustBackendLabel,
    TranslationCtx,
};
use std::cmp::Ordering;

fn op(label: AbstractOpLabel, time: u64) -> AbstractOp {
    AbstractOp { label, cost: Cost::new(time, false) }
}

#[test]
fn test_complexity_ordering_by_time_exponent() {
    let constant = Complexity::new(0, false);
    let linear = Complexity::new(1, false);
    let quadratic = Complexity::new(2, false);
    assert!(constant < linear);
    assert!(linear < quadratic);
}

#[test]
fn test_complexity_ordering_time_dominates_log() {
    let log = Complexity::new(0, true);
    let linear = Complexity::new(1, false);
    assert!(log < linear);
    assert_eq!(log.cmp(&linear), Ordering::Less);
    let linear_log = Complexity::new(1, true);
    let quadratic = Complexity::new(2, false);
    assert!(linear_log < quadratic);
    assert_eq!(linear_log.cmp(&quadratic), Ordering::Less);
}

#[test]
fn complexity_at_most_matches_order() {
    let all = [
        Complexity::new(0, false),
        Complexity::new(0, true),
        Complexity::new(1, false),
        Complexity::new(1, true),
        Complexity::new(2, false),
    ];
    for a in all.iter() {
        for b in all.iter() {
            assert_eq!(a.at_most(b), a <= b);
        }
    }
}

#[test]
fn main_test_neither_backend_matches() {
    let ctx = TranslationCtx::new();
    let c_analysis_result = CAnalysisResult {
        name: "unsupported_struct".to_string(),
        ops: vec![op(AbstractOpLabel::Unsupported, 0)],
    };
    let rust_backends = ctx.select_rust_struct(c_analysis_result);
    assert_eq!(rust_backends.len(), 0);
}

#[test]
fn main_test_both_backends_match() {
    let ctx = TranslationCtx::new();
    let c_analysis_result = CAnalysisResult {
        name: "stack_like_struct".to_string(),
        ops: vec![op(AbstractOpLabel::PushBack, 0), op(AbstractOpLabel::PopBack, 0)],
    };
    let rust_backends = ctx.select_rust_struct(c_analysis_result);
    assert_eq!(rust_backends.len(), 2);
    assert!(rust_backends.contains(&RustBackendLabel::Vec));
    assert!(rust_backends.contains(&RustBackendLabel::VecDeque));
}

#[test]
fn main_test_only_vecdeque_matches() {
    let ctx = TranslationCtx::new();
    let c_analysis_result = CAnalysisResult {
        name: "queue_like_struct".to_string(),
        ops: vec![op(AbstractOpLabel::PushFront, 0), op(AbstractOpLabel::PopBack, 0)],
    };
    let rust_backends = ctx.select_rust_struct(c_analysis_result);
    assert_eq!(rust_backends.len(), 1);
    assert_eq!(rust_backends[0], RustBackendLabel::VecDeque);
}

#[test]
fn integration_tests_test_neither_backend_matches() {
    let ctx = TranslationCtx::new();
    let c_analysis_result = CAnalysisResult {
        name: "unsupported_struct".to_string(),
        ops: vec![op(AbstractOpLabel::Unsupported, 1)],
    };
    let rust_backends = ctx.select_rust_struct(c_analysis_result);
    assert_eq!(rust_backends.len(), 0);
}

#[test]
fn integration_tests_test_both_backends_match() {
    let ctx = TranslationCtx::new();
    let c_analysis_result = CAnalysisResult {
        name: "stack_like_struct".to_string(),
        ops: vec![op(AbstractOpLabel::PushBack, 0), op(AbstractOpLabel::PopBack, 0)],
    };
    let rust_backends = ctx.select_rust_struct(c_analysis_result);
    assert_eq!(rust_backends.len(), 2);
    assert!(rust_backends.contains(&RustBackendLabel::Vec));
    assert!(rust_backends.contains(&RustBackendLabel::VecDeque));
}

#[test]
fn integration_tests_test_only_vecdeque_matches() {
    let ctx = TranslationCtx::new();
    let c_analysis_result = CAnalysisResult {
        name: "queue_like_struct".to_string(),
        ops: vec![op(AbstractOpLabel::PushFront, 0), op(AbstractOpLabel::PopBack, 0)],
    };
    let rust_backends = ctx.select_rust_struct(c_analysis_result);
    assert_eq!(rust_backends.len(), 1);
    assert_eq!(rust_backends[0], RustBackendLabel::VecDeque);
}

#[test]
fn test_backend_ruled_out_by_cost() {
    let dumbstack = RustBackend {
        label: RustBackendLabel::Vec,
        ops: vec![op(AbstractOpLabel::PushBack, 1), op(AbstractOpLabel::PopBack, 0)],
    };
    let required_ops = vec![op(AbstractOpLabel::PushBack, 0), op(AbstractOpLabel::PopBack, 0)];
    let ctx = TranslationCtx::from_rust_backends(&[dumbstack]);
    let c_analysis_result = CAnalysisResult { name: "stacklike_struct".to_string(), ops: required_ops };
    let rust_backends = ctx.select_rust_struct(c_analysis_result);
    assert!(rust_backends.is_empty(), "Dumbstack should not be selected due to cost");
}

#[test]
fn implements_all_ignores_cost() {
    let slow = RustBackend {
        label: RustBackendLabel::Vec,
        ops: vec![op(AbstractOpLabel::PushBack, 2)],
    };
    let wanted = [op(AbstractOpLabel::PushBack, 0)];
    assert!(slow.implements_all(&wanted));
    assert!(!slow.implements_all_efficiently(&wanted));
    assert!(RustBackend::vecdeque().implements_all(&[op(AbstractOpLabel::PopFront, 0)]));
    assert!(!RustBackend::vec().implements_all(&[op(AbstractOpLabel::PopFront, 0)]));
}

#[test]
fn backend_with_log_factor_is_ruled_out_for_constant_need() {
    let tree = RustBackend {
        label: RustBackendLabel::VecDeque,
        ops: vec![AbstractOp { label: AbstractOpLabel::PushBack, cost: Cost::new(0, true) }],
    };
    let ctx = TranslationCtx::from_rust_backends(&[tree, RustBackend::vec()]);
    let result = ctx.select_rust_struct(CAnalysisResult {
        name: "s".to_string(),
        ops: vec![op(AbstractOpLabel::PushBack, 0)],
    });
    assert_eq!(result, vec![RustBackendLabel::Vec]);
}
