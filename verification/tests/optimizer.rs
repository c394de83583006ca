use ir::locality::access_analysis;
use ir::lowering::IRExpr;
use ir::optimizer::{optimize, optimize_, run_round, Optimization};
use ir::peephole::{replace, simple_rules, Rule};

#[test]
fn set_zero() {
    let ir = vec![
        IRExpr::Update(1),
        IRExpr::ConditionalStart(0),
        IRExpr::Update(-1),
        IRExpr::ConditionalEnd(0),
        IRExpr::Update(2),
    ];

    let out = optimize_(ir, &[Optimization::SimpleRules]);

    assert_eq!(out, vec![IRExpr::Assign(2)]);
}

#[test]
fn multiply() {
    let ir = vec![
        IRExpr::Update(10),
        IRExpr::ConditionalStart(0),
        IRExpr::Step(1),
        IRExpr::Update(10),
        IRExpr::Step(-1),
        IRExpr::Update(-1),
        IRExpr::ConditionalEnd(0),
    ];

    let out = optimize_(ir, &[Optimization::SimpleRules]);

    assert_eq!(
        out,
        vec![
            IRExpr::Step(1),
            IRExpr::Update(100),
            IRExpr::Step(-1),
            IRExpr::Assign(0)
        ]
    );
}

#[test]
fn rules_should_work_in_branch() {
    let ir = vec![
        IRExpr::Update(1),
        IRExpr::ConditionalStart(0),
        IRExpr::Update(1),
        IRExpr::Update(2),
        IRExpr::Update(3),
        IRExpr::ConditionalEnd(0),
        IRExpr::Update(1),
        IRExpr::ConditionalStart(1),
        IRExpr::Update(1),
        IRExpr::Update(2),
        IRExpr::Update(3),
        IRExpr::ConditionalEnd(1),
    ];

    let out = optimize_(ir, &[Optimization::SimpleRules]);

    assert_eq!(
        out,
        vec![
            IRExpr::Update(1),
            IRExpr::ConditionalStart(0),
            IRExpr::Update(6),
            IRExpr::ConditionalEnd(0),
            IRExpr::Update(1),
            IRExpr::ConditionalStart(1),
            IRExpr::Update(6),
            IRExpr::ConditionalEnd(1),
        ]
    );
}

#[test]
fn unreachable_conditional() {
    let ir = vec![
        IRExpr::Update(1),
        IRExpr::ConditionalStart(0),
        IRExpr::Update(1),
        IRExpr::Step(1),
        IRExpr::ConditionalEnd(0),
        IRExpr::ConditionalStart(1),
        IRExpr::Update(1),
        IRExpr::Step(1),
        IRExpr::ConditionalEnd(1),
    ];

    let out = optimize_(ir, &[Optimization::UnreachableBranch]);

    assert_eq!(
        out,
        vec![
            IRExpr::Update(1),
            IRExpr::ConditionalStart(0),
            IRExpr::Update(1),
            IRExpr::Step(1),
            IRExpr::ConditionalEnd(0),
        ]
    );
}

#[test]
fn unreachable_set() {
    let ir = vec![
        IRExpr::Assign(0),
        IRExpr::ConditionalStart(0),
        IRExpr::Update(1),
        IRExpr::Step(1),
        IRExpr::ConditionalEnd(0),
    ];

    let out = optimize_(ir, &[Optimization::UnreachableBranch]);

    assert_eq!(out, vec![IRExpr::Assign(0)]);
}

#[test]
fn unreachable_inner() {
    let ir = vec![
        IRExpr::Assign(1),
        IRExpr::ConditionalStart(0),
        IRExpr::Output,
        IRExpr::Assign(0),
        IRExpr::ConditionalStart(1),
        IRExpr::Update(1),
        IRExpr::Step(1),
        IRExpr::ConditionalEnd(1),
        IRExpr::ConditionalEnd(0),
    ];

    let out = optimize_(ir, &[Optimization::UnreachableBranch]);

    assert_eq!(
        out,
        vec![
            IRExpr::Assign(1),
            IRExpr::ConditionalStart(0),
            IRExpr::Output,
            IRExpr::Assign(0),
            IRExpr::ConditionalEnd(0),
        ]
    );
}

#[test]
fn access_analysis_test() {
    let ir = vec![
        IRExpr::Step(1),
        IRExpr::Update(2),
        IRExpr::Step(-1),
        IRExpr::Update(2),
        IRExpr::Step(1),
        IRExpr::Update(2),
        IRExpr::Step(-1),
        IRExpr::Update(2),
        IRExpr::Step(2),
    ];

    let (out, _) = access_analysis(ir);
    let (out, _) = simple_rules(out);

    assert_eq!(
        out,
        vec![
            IRExpr::Update(4),
            IRExpr::Step(1),
            IRExpr::Update(4),
            IRExpr::Step(1)
        ]
    );
}

#[test]
fn access_analysis_conditional_test() {
    let ir = vec![
        IRExpr::Step(1),
        IRExpr::Update(2),
        IRExpr::Step(-1),
        IRExpr::Update(2),
        IRExpr::Step(1),
        IRExpr::Update(2),
        IRExpr::Step(-1),
        IRExpr::Update(2),
        IRExpr::Step(1),
        IRExpr::ConditionalStart(1),
        IRExpr::Update(1),
        IRExpr::Step(-2),
        IRExpr::Update(1),
        IRExpr::Step(1),
        IRExpr::Update(1),
        IRExpr::Step(1),
        IRExpr::Update(1),
        IRExpr::ConditionalEnd(1),
        IRExpr::Update(10),
    ];

    let (out, _) = access_analysis(ir);
    let (out, _) = simple_rules(out);

    assert_eq!(
        out,
        vec![
            IRExpr::Update(4),
            IRExpr::Step(1),
            IRExpr::Update(4),
            IRExpr::ConditionalStart(1),
            IRExpr::Step(-2),
            IRExpr::Update(1),
            IRExpr::Step(1),
            IRExpr::Update(1),
            IRExpr::Step(1),
            IRExpr::Update(2),
            IRExpr::ConditionalEnd(1),
            IRExpr::Update(10),
        ]
    );
}

#[test]
fn access_analysis_writes_canonical_order() {
    let ir = vec![
        IRExpr::Step(1),
        IRExpr::Update(2),
        IRExpr::Step(-1),
        IRExpr::Update(3),
        IRExpr::Step(1),
        IRExpr::Assign(4),
        IRExpr::Step(-1),
        IRExpr::Update(5),
        IRExpr::Step(2),
    ];
    let (out, changed) = access_analysis(ir);
    assert!(changed);
    assert_eq!(
        out,
        vec![
            IRExpr::Update(3),
            IRExpr::Update(5),
            IRExpr::Step(1),
            IRExpr::Update(2),
            IRExpr::Assign(4),
            IRExpr::Step(1),
        ]
    );
}

#[test]
fn access_analysis_moves_down_first() {
    let ir = vec![IRExpr::Update(1), IRExpr::Step(-1), IRExpr::Update(2)];
    let (out, changed) = access_analysis(ir);
    assert!(changed);
    assert_eq!(
        out,
        vec![
            IRExpr::Step(-1),
            IRExpr::Update(2),
            IRExpr::Step(1),
            IRExpr::Update(1),
            IRExpr::Step(-1),
        ]
    );
}

#[test]
fn access_analysis_run_without_writes() {
    let ir = vec![
        IRExpr::Step(2),
        IRExpr::Step(-3),
        IRExpr::Input,
        IRExpr::Step(1),
        IRExpr::Step(-1),
        IRExpr::Output,
    ];
    let (out, changed) = access_analysis(ir);
    assert!(changed);
    assert_eq!(out, vec![IRExpr::Step(-1), IRExpr::Input, IRExpr::Output]);
}

#[test]
fn access_analysis_is_stable_on_its_own_result() {
    let ir = vec![
        IRExpr::Step(3),
        IRExpr::Update(1),
        IRExpr::Step(-5),
        IRExpr::Assign(7),
        IRExpr::Output,
        IRExpr::Step(1),
        IRExpr::Update(1),
    ];
    let (once, changed) = access_analysis(ir);
    assert!(changed);
    let (twice, changed_again) = access_analysis(once.clone());
    assert!(!changed_again);
    assert_eq!(once, twice);
}

#[test]
fn access_analysis_keeps_barriers_in_place() {
    let ir = vec![
        IRExpr::Step(1),
        IRExpr::Update(1),
        IRExpr::Input,
        IRExpr::Step(-1),
        IRExpr::Update(2),
        IRExpr::ConditionalStart(0),
        IRExpr::Update(3),
        IRExpr::ConditionalEnd(0),
        IRExpr::Output,
    ];
    let (out, changed) = access_analysis(ir.clone());
    assert!(!changed);
    assert_eq!(out, ir);
}

#[test]
fn access_analysis_wraps_offsets() {
    let ir = vec![
        IRExpr::Step(i32::MAX),
        IRExpr::Step(1),
        IRExpr::Update(1),
    ];
    let (out, _) = access_analysis(ir);
    assert_eq!(out, vec![IRExpr::Step(i32::MIN), IRExpr::Update(1)]);
}

#[test]
fn identity_elimination() {
    let ir = vec![
        IRExpr::Update(0),
        IRExpr::Step(0),
        IRExpr::Step(0),
        IRExpr::Update(0),
    ];
    assert_eq!(optimize(ir.clone()), vec![]);
    assert_eq!(optimize_(ir, &[Optimization::SimpleRules]), vec![]);
}

#[test]
fn delta_fusion() {
    let ir = vec![IRExpr::Update(1), IRExpr::Update(2), IRExpr::Update(3)];
    assert_eq!(optimize(ir), vec![IRExpr::Update(6)]);
}

#[test]
fn clear_cell_idiom_full_optimizer() {
    let ir = vec![
        IRExpr::Update(1),
        IRExpr::ConditionalStart(0),
        IRExpr::Update(-1),
        IRExpr::ConditionalEnd(0),
        IRExpr::Update(2),
    ];
    assert_eq!(optimize(ir), vec![IRExpr::Assign(2)]);
}

#[test]
fn multiply_idiom_full_optimizer_sorts_the_writes() {
    let ir = vec![
        IRExpr::Update(10),
        IRExpr::ConditionalStart(0),
        IRExpr::Step(1),
        IRExpr::Update(10),
        IRExpr::Step(-1),
        IRExpr::Update(-1),
        IRExpr::ConditionalEnd(0),
    ];
    assert_eq!(
        optimize(ir),
        vec![
            IRExpr::Assign(0),
            IRExpr::Step(1),
            IRExpr::Update(100),
            IRExpr::Step(-1),
        ]
    );
}

#[test]
fn multiply_needs_opposite_steps() {
    let ir = vec![
        IRExpr::Update(10),
        IRExpr::ConditionalStart(0),
        IRExpr::Step(1),
        IRExpr::Update(10),
        IRExpr::Step(-2),
        IRExpr::Update(-1),
        IRExpr::ConditionalEnd(0),
    ];
    let (out, changed) = replace(ir.clone(), &Rule::Multiply);
    assert!(!changed);
    assert_eq!(out, ir);
}

#[test]
fn multiply_fires_on_shape_alone() {
    let ir = vec![
        IRExpr::Input,
        IRExpr::Update(3),
        IRExpr::ConditionalStart(4),
        IRExpr::Step(-2),
        IRExpr::Update(5),
        IRExpr::Step(2),
        IRExpr::Update(-1),
        IRExpr::ConditionalEnd(4),
    ];
    let (out, changed) = replace(ir, &Rule::Multiply);
    assert!(changed);
    assert_eq!(
        out,
        vec![
            IRExpr::Input,
            IRExpr::Step(-2),
            IRExpr::Update(15),
            IRExpr::Step(2),
            IRExpr::Assign(0),
        ]
    );
}

#[test]
fn dead_loop_after_assign_zero() {
    let ir = vec![
        IRExpr::Assign(0),
        IRExpr::ConditionalStart(0),
        IRExpr::Update(1),
        IRExpr::Step(1),
        IRExpr::ConditionalEnd(0),
    ];
    assert_eq!(optimize(ir), vec![IRExpr::Assign(0)]);
}

#[test]
fn dead_loop_with_nested_loop_goes_whole() {
    let ir = vec![
        IRExpr::Assign(0),
        IRExpr::ConditionalStart(0),
        IRExpr::ConditionalStart(1),
        IRExpr::Output,
        IRExpr::ConditionalEnd(1),
        IRExpr::Input,
        IRExpr::ConditionalEnd(0),
        IRExpr::Output,
    ];
    let out = optimize_(ir, &[Optimization::UnreachableBranch]);
    assert_eq!(out, vec![IRExpr::Assign(0), IRExpr::Output]);
}

#[test]
fn optimize_twice_is_optimize_once() {
    let ir = vec![
        IRExpr::Assign(0),
        IRExpr::ConditionalStart(0),
        IRExpr::Output,
        IRExpr::ConditionalEnd(0),
        IRExpr::Update(1),
        IRExpr::Step(2),
        IRExpr::Update(3),
        IRExpr::Step(-2),
        IRExpr::Update(4),
        IRExpr::Input,
    ];
    let once = optimize(ir);
    assert_eq!(
        once,
        vec![
            IRExpr::Assign(5),
            IRExpr::Step(2),
            IRExpr::Update(3),
            IRExpr::Step(-2),
            IRExpr::Input,
        ]
    );
    let twice = optimize(once.clone());
    assert_eq!(twice, once);
}

#[test]
fn round_reports_change() {
    let passes = [
        Optimization::SimpleRules,
        Optimization::AccessAnalysis,
        Optimization::UnreachableBranch,
    ];
    let (out, changed) = run_round(vec![IRExpr::Update(1), IRExpr::Update(1)], &passes);
    assert!(changed);
    assert_eq!(out, vec![IRExpr::Update(2)]);
    let (same, changed) = run_round(out.clone(), &passes);
    assert!(!changed);
    assert_eq!(same, out);
}

#[test]
fn replace_retries_the_same_index() {
    let ir = vec![
        IRExpr::Update(1),
        IRExpr::Update(2),
        IRExpr::Update(3),
        IRExpr::Step(1),
    ];
    let (out, changed) = replace(ir, &Rule::FuseUpdates);
    assert!(changed);
    assert_eq!(out, vec![IRExpr::Update(6), IRExpr::Step(1)]);
}

#[test]
fn replace_on_short_program() {
    let (out, changed) = replace(vec![IRExpr::Update(1)], &Rule::ClearCell);
    assert!(!changed);
    assert_eq!(out, vec![IRExpr::Update(1)]);
}

#[test]
fn fuse_assign_both_ways() {
    let (out, _) = replace(
        vec![IRExpr::Assign(3), IRExpr::Update(4)],
        &Rule::FuseAssign,
    );
    assert_eq!(out, vec![IRExpr::Assign(7)]);
    let (out, _) = replace(
        vec![IRExpr::Update(4), IRExpr::Assign(3)],
        &Rule::FuseAssign,
    );
    assert_eq!(out, vec![IRExpr::Assign(3)]);
}

#[test]
fn fusion_wraps() {
    let (out, _) = replace(
        vec![IRExpr::Update(i32::MAX), IRExpr::Update(1)],
        &Rule::FuseUpdates,
    );
    assert_eq!(out, vec![IRExpr::Update(i32::MIN)]);
    let (out, _) = replace(
        vec![IRExpr::Step(i32::MIN), IRExpr::Step(-1)],
        &Rule::FuseSteps,
    );
    assert_eq!(out, vec![IRExpr::Step(i32::MAX)]);
}

#[test]
fn rule_lengths() {
    assert_eq!(Rule::Identity.length(), 1);
    assert_eq!(Rule::FuseUpdates.length(), 2);
    assert_eq!(Rule::FuseSteps.length(), 2);
    assert_eq!(Rule::FuseAssign.length(), 2);
    assert_eq!(Rule::ClearCell.length(), 3);
    assert_eq!(Rule::Multiply.length(), 7);
}

#[test]
fn clear_cell_goes_by_shape() {
    let (out, changed) = replace(
        vec![
            IRExpr::ConditionalStart(3),
            IRExpr::Update(-1),
            IRExpr::ConditionalEnd(3),
            IRExpr::ConditionalStart(4),
            IRExpr::Update(-2),
            IRExpr::ConditionalEnd(4),
        ],
        &Rule::ClearCell,
    );
    assert!(changed);
    assert_eq!(
        out,
        vec![
            IRExpr::Assign(0),
            IRExpr::ConditionalStart(4),
            IRExpr::Update(-2),
            IRExpr::ConditionalEnd(4),
        ]
    );
}

#[test]
fn identity_rule_takes_zero_moves_and_updates() {
    let (out, changed) = replace(
        vec![
            IRExpr::Step(0),
            IRExpr::Update(1),
            IRExpr::Update(0),
            IRExpr::Assign(0),
            IRExpr::Step(0),
        ],
        &Rule::Identity,
    );
    assert!(changed);
    assert_eq!(out, vec![IRExpr::Update(1), IRExpr::Assign(0)]);
}

#[test]
fn simple_rules_is_one_round() {
    let ir = vec![
        IRExpr::Update(1),
        IRExpr::Step(1),
        IRExpr::Step(-1),
        IRExpr::Update(2),
    ];
    let (once, changed) = simple_rules(ir);
    assert!(changed);
    assert_eq!(
        once,
        vec![IRExpr::Update(1), IRExpr::Step(0), IRExpr::Update(2)]
    );
    let (twice, changed) = simple_rules(once);
    assert!(changed);
    assert_eq!(twice, vec![IRExpr::Update(3)]);
    let (thrice, changed) = simple_rules(twice.clone());
    assert!(!changed);
    assert_eq!(thrice, twice);
}

#[test]
fn optimize_with_no_pass_changes_nothing() {
    let ir = vec![IRExpr::Update(0), IRExpr::Step(0)];
    assert_eq!(optimize_(ir.clone(), &[]), ir);
}

#[test]
fn optimize_reorders_between_io() {
    let ir = vec![
        IRExpr::Input,
        IRExpr::Step(1),
        IRExpr::Update(1),
        IRExpr::Step(-1),
        IRExpr::Update(1),
        IRExpr::Output,
        IRExpr::Update(1),
    ];
    assert_eq!(
        optimize(ir),
        vec![
            IRExpr::Input,
            IRExpr::Update(1),
            IRExpr::Step(1),
            IRExpr::Update(1),
            IRExpr::Step(-1),
            IRExpr::Output,
            IRExpr::Update(1),
        ]
    );
}
