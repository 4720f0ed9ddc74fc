use librho::pipeline::{describe_group, PipelinePlan, Stage};

#[test]
fn consecutive_diagnostics_form_one_group() {
    let mut plan = PipelinePlan::new();
    plan.add_fact("ResolverPass(0)".to_string());
    plan.add_fact("EnclosureAnalysis(0)".to_string());
    plan.add_diagnostic("UnusedVar".to_string());
    plan.add_diagnostic("\u{2228} Consistency Check".to_string());
    plan.add_diagnostic_ungrouped("Numeric Type Consistency Check".to_string());
    plan.add_diagnostic("Late".to_string());
    let stages = plan.stages();
    assert_eq!(stages.len(), 5);
    assert!(matches!(&stages[2], Stage::Group(names) if names.len() == 2));
    assert!(matches!(&stages[3], Stage::Diagnostic(_)));
    assert!(matches!(&stages[4], Stage::Group(names) if names.len() == 1));
}

#[test]
fn describe_draws_groups_under_their_fact() {
    let mut plan = PipelinePlan::new();
    plan.add_fact("ResolverPass(0)".to_string());
    plan.add_diagnostic("UnusedVar".to_string());
    plan.add_diagnostic("Check".to_string());
    plan.add_diagnostic_ungrouped("Alone".to_string());
    let expected = [
        "ResolverPass(0)           (Fact)\n",
        " \u{251c}\u{2500} UnusedVar              (Diagnostic)\n",
        " \u{2514}\u{2500} Check                  (Diagnostic)\n",
        "Alone                     (Diagnostic)\n",
    ]
    .concat();
    assert_eq!(plan.describe(), expected);
}

#[test]
fn describe_group_without_fact_and_long_names() {
    let mut plan = PipelinePlan::new();
    plan.add_diagnostic("A diagnostic pass with a very long name".to_string());
    plan.add_fact("A fact pass with a very long name".to_string());
    let expected = [
        "\u{2514}\u{2500} A diagnostic pass with a very long name (Diagnostic)\n",
        "A fact pass with a very long name (Fact)\n",
    ]
    .concat();
    assert_eq!(plan.describe(), expected);
    assert_eq!(PipelinePlan::new().describe(), "");
}

#[test]
fn group_names() {
    assert_eq!(describe_group(&vec!["UnusedVar".to_string()]), "DiagnosticGroup[UnusedVar]");
    assert_eq!(
        describe_group(&vec!["A".to_string(), "B".to_string(), "C".to_string()]),
        "DiagnosticGroup(3): [A, B, C]"
    );
}
