use bsk::snapshot::{render_human, snapshot_params, SnapshotArgs, SnapshotReply};

#[test]
fn params_copy_the_arguments() {
    let args = SnapshotArgs {
        session: "s-1".to_string(),
        tab_id: Some(42),
        max_depth: Some(8),
        max_tokens: None,
    };
    let p = snapshot_params(&args);
    assert_eq!(p.session_id, "s-1");
    assert_eq!(p.tab_id, Some(42));
    assert_eq!(p.max_depth, Some(8));
    assert_eq!(p.max_tokens, None);
}

#[test]
fn human_output_of_a_full_snapshot() {
    let reply = SnapshotReply {
        text: "- button \"OK\" [@e1]".to_string(),
        truncated: false,
        ref_count: 1,
        tab_id: 7,
    };
    let out = render_human(&reply);
    assert_eq!(out.stdout, vec!["- button \"OK\" [@e1]".to_string()]);
    assert!(out.stderr.is_empty());
}

#[test]
fn human_output_of_an_empty_truncated_snapshot() {
    let reply = SnapshotReply { text: String::new(), truncated: true, ref_count: 1234, tab_id: -5 };
    let out = render_human(&reply);
    assert_eq!(out.stdout, vec!["(empty snapshot \u{2014} page may still be loading)".to_string()]);
    assert_eq!(
        out.stderr,
        vec![
            "warning: snapshot truncated (refs=1234, tab=-5). Increase --max-depth / --max-tokens if needed."
                .to_string()
        ]
    );
}

#[test]
fn human_output_extreme_numbers() {
    let reply = SnapshotReply {
        text: "x".to_string(),
        truncated: true,
        ref_count: u64::MAX,
        tab_id: i64::MIN,
    };
    let out = render_human(&reply);
    assert_eq!(
        out.stderr[0],
        format!(
            "warning: snapshot truncated (refs={}, tab={}). Increase --max-depth / --max-tokens if needed.",
            u64::MAX,
            i64::MIN
        )
    );
}
