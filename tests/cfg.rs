use avm1_parser::cfg_builder::{parse_cfg, try_add_offset, Avm1Parser, IdGen, Reachability};
use avm1_parser::control_flow::{Action, Cfg, CfgFlow, CfgLabel, If, Simple};

fn label(layer: u64, offset: usize) -> CfgLabel {
    CfgLabel { layer, offset }
}

fn labels_distinct(cfg: &Cfg) -> bool {
    for (i, a) in cfg.blocks.iter().enumerate() {
        for b in cfg.blocks.iter().skip(i + 1) {
            if a.label == b.label {
                return false;
            }
        }
    }
    true
}

#[test]
fn jump_resolves_to_label() {
    // Jump(0) at 0, Stop at 5, End at 6.
    let program = vec![0x99, 0x02, 0x00, 0x00, 0x00, 0x07, 0x00];
    let cfg = parse_cfg(&program);
    assert_eq!(cfg.blocks.len(), 2);
    assert_eq!(cfg.blocks[0].label, label(0, 0));
    assert!(cfg.blocks[0].actions.is_empty());
    assert_eq!(cfg.blocks[0].flow, CfgFlow::Simple(Simple { next: Some(label(0, 5)) }));
    assert_eq!(cfg.blocks[1].label, label(0, 5));
    assert_eq!(cfg.blocks[1].actions, vec![Action::Stop]);
    assert_eq!(cfg.blocks[1].flow, CfgFlow::Simple(Simple { next: None }));
}

#[test]
fn backward_jump_loops_to_entry() {
    // Stop at 0, Jump(-6) at 1 back to 0.
    let program = vec![0x07, 0x99, 0x02, 0x00, 0xfa, 0xff];
    let cfg = parse_cfg(&program);
    assert_eq!(cfg.blocks.len(), 1);
    assert_eq!(cfg.blocks[0].actions, vec![Action::Stop]);
    assert_eq!(cfg.blocks[0].flow, CfgFlow::Simple(Simple { next: Some(label(0, 0)) }));
}

#[test]
fn if_has_both_edges() {
    // If(+1) at 0, Stop at 5, Play at 6, End at 7.
    let program = vec![0x9d, 0x02, 0x00, 0x01, 0x00, 0x07, 0x06, 0x00];
    let cfg = parse_cfg(&program);
    assert_eq!(cfg.blocks.len(), 3);
    assert_eq!(
        cfg.blocks[0].flow,
        CfgFlow::If(If { true_target: Some(label(0, 6)), false_target: Some(label(0, 5)) })
    );
    assert_eq!(cfg.blocks[1].label, label(0, 5));
    assert_eq!(cfg.blocks[1].actions, vec![Action::Stop]);
    assert_eq!(cfg.blocks[1].flow, CfgFlow::Simple(Simple { next: Some(label(0, 6)) }));
    assert_eq!(cfg.blocks[2].label, label(0, 6));
    assert_eq!(cfg.blocks[2].actions, vec![Action::Play]);
    assert!(labels_distinct(&cfg));
}

#[test]
fn nested_function_has_its_own_graph() {
    // DefineFunction "" () with a 2-byte body [Stop, Return], then End.
    let program = vec![0x9b, 0x05, 0x00, 0x00, 0x00, 0x00, 0x02, 0x00, 0x07, 0x3e, 0x00];
    let cfg = parse_cfg(&program);
    assert_eq!(cfg.blocks.len(), 1);
    let block = &cfg.blocks[0];
    assert_eq!(block.actions.len(), 1);
    match &block.actions[0] {
        Action::DefineFunction(f) => {
            assert_eq!(f.name, "");
            assert!(f.parameters.is_empty());
            assert_eq!(f.body.blocks.len(), 1);
            assert_eq!(f.body.blocks[0].label, label(1, 8));
            assert_eq!(f.body.blocks[0].actions, vec![Action::Stop]);
            assert_eq!(f.body.blocks[0].flow, CfgFlow::Return);
        },
        other => panic!("unexpected action {:?}", other),
    }
    assert_eq!(block.flow, CfgFlow::Simple(Simple { next: None }));
}

#[test]
fn with_body_is_a_nested_graph() {
    // With(size 2) at 0, body [Stop, Play] at 5..7, End at 7.
    let program = vec![0x94, 0x02, 0x00, 0x02, 0x00, 0x07, 0x06, 0x00];
    let cfg = parse_cfg(&program);
    assert_eq!(cfg.blocks[0].label, label(0, 0));
    match &cfg.blocks[0].flow {
        CfgFlow::With(w) => {
            assert_eq!(w.body.blocks[0].label, label(1, 5));
            assert_eq!(w.body.blocks[0].actions, vec![Action::Stop, Action::Play]);
            assert_eq!(w.body.blocks[0].flow, CfgFlow::Simple(Simple { next: Some(label(0, 7)) }));
            assert!(labels_distinct(&w.body));
        },
        other => panic!("unexpected flow {:?}", other),
    }
    assert_eq!(cfg.blocks.len(), 2);
    assert_eq!(cfg.blocks[1].label, label(0, 7));
    assert!(labels_distinct(&cfg));
}

#[test]
fn decoding_error_ends_block() {
    // GotoFrame with a 1-byte body, then End.
    let program = vec![0x81, 0x01, 0x00, 0x05, 0x00];
    let cfg = parse_cfg(&program);
    assert_eq!(cfg.blocks.len(), 1);
    assert!(matches!(cfg.blocks[0].flow, CfgFlow::Error(_)));
}

#[test]
fn empty_program_is_one_exit_block() {
    let cfg = parse_cfg(&[]);
    assert_eq!(cfg.blocks.len(), 1);
    assert_eq!(cfg.blocks[0].label, label(0, 0));
    assert_eq!(cfg.blocks[0].flow, CfgFlow::Simple(Simple { next: None }));
}

#[test]
fn parse_cfg_is_deterministic() {
    let program = vec![0x9d, 0x02, 0x00, 0x01, 0x00, 0x07, 0x06, 0x94, 0x01, 0x00, 0x01, 0x00, 0x07, 0x00];
    assert_eq!(parse_cfg(&program), parse_cfg(&program));
}

#[test]
fn wait_for_frame_skips_whole_actions() {
    // WaitForFrame(frame 3, skip 1) at 0, Stop at 6, Play at 7, End at 8.
    let program = vec![0x8a, 0x03, 0x00, 0x03, 0x00, 0x01, 0x07, 0x06, 0x00];
    let cfg = parse_cfg(&program);
    match &cfg.blocks[0].flow {
        CfgFlow::WaitForFrame(w) => {
            assert_eq!(w.frame, 3);
            assert_eq!(w.ready_target, Some(label(0, 6)));
            assert_eq!(w.loading_target, Some(label(0, 7)));
        },
        other => panic!("unexpected flow {:?}", other),
    }
    assert_eq!(cfg.blocks.len(), 3);
}

#[test]
fn offsets_add_within_usize() {
    assert_eq!(try_add_offset(10, -3), Some(7));
    assert_eq!(try_add_offset(10, 5), Some(15));
    assert_eq!(try_add_offset(2, -3), None);
    assert_eq!(try_add_offset(usize::MAX, 1), None);
}

#[test]
fn id_generator_counts_up() {
    let mut idg = IdGen::new();
    assert_eq!(idg.next(), 0);
    assert_eq!(idg.next(), 1);
    let mut reach = Reachability::Linear;
    reach.set_jump();
    assert_eq!(reach, Reachability::Jump);
}

#[test]
fn parser_skip_steps_over_headers_and_bodies() {
    let bytes = vec![0x07, 0x81, 0x02, 0x00, 0x05, 0x00, 0x06];
    let parser = Avm1Parser::new(&bytes);
    assert_eq!(parser.skip(0, 0), 0);
    assert_eq!(parser.skip(0, 1), 1);
    assert_eq!(parser.skip(0, 2), 6);
    assert_eq!(parser.skip(0, 3), 7);
    assert_eq!(parser.skip(0, 9), 7);
}

#[test]
fn label_text_form() {
    assert_eq!(label(0, 0).to_text(), "l0_0");
    assert_eq!(label(12, 305).to_text(), "l12_305");
    assert_eq!(label(u64::MAX, 10).to_text(), format!("l{}_10", u64::MAX));
}

fn own_layer_labels_name_blocks(cfg: &Cfg) -> bool {
    let layer = cfg.blocks[0].label.layer;
    for block in cfg.blocks.iter() {
        let targets: Vec<Option<CfgLabel>> = match &block.flow {
            CfgFlow::Simple(s) => vec![s.next],
            CfgFlow::If(i) => vec![i.true_target, i.false_target],
            CfgFlow::WaitForFrame(w) => vec![w.loading_target, w.ready_target],
            CfgFlow::WaitForFrame2(w) => vec![w.loading_target, w.ready_target],
            _ => vec![],
        };
        for t in targets.into_iter().flatten() {
            if t.layer == layer && !cfg.blocks.iter().any(|b| b.label == t) {
                return false;
            }
        }
    }
    true
}

#[test]
fn try_with_catch_and_finally_has_three_bodies() {
    // Try at 0 (flags: catch + finally, catch in register 1; try 1, catch 1, finally 1),
    // then Stop (try), Play (catch), Return (finally), End.
    let program = vec![
        0x8f, 0x08, 0x00, 0x07, 0x01, 0x00, 0x01, 0x00, 0x01, 0x00, 0x01, 0x07, 0x06, 0x3e, 0x00,
    ];
    let cfg = parse_cfg(&program);
    assert!(labels_distinct(&cfg));
    assert!(own_layer_labels_name_blocks(&cfg));
    match &cfg.blocks[0].flow {
        CfgFlow::Try(t) => {
            assert_eq!(t.try_body.blocks[0].label.offset, 11);
            assert_eq!(t.try_body.blocks[0].actions, vec![Action::Stop]);
            let catch = t.catch.as_ref().unwrap();
            assert_eq!(catch.body.blocks[0].label.offset, 12);
            assert_eq!(catch.body.blocks[0].actions, vec![Action::Play]);
            let finally = t.finally.as_ref().unwrap();
            assert_eq!(finally.blocks[0].label.offset, 13);
            assert_eq!(finally.blocks[0].flow, CfgFlow::Return);
            assert!(own_layer_labels_name_blocks(&t.try_body));
            assert!(own_layer_labels_name_blocks(finally));
        },
        other => panic!("unexpected flow {:?}", other),
    }
}

#[test]
fn wait_for_frame2_branches() {
    // WaitForFrame2(skip 1) at 0, Stop at 4, Play at 5, End at 6.
    let program = vec![0x8d, 0x01, 0x00, 0x01, 0x07, 0x06, 0x00];
    let cfg = parse_cfg(&program);
    assert!(own_layer_labels_name_blocks(&cfg));
    match &cfg.blocks[0].flow {
        CfgFlow::WaitForFrame2(w) => {
            assert_eq!(w.ready_target, Some(label(0, 4)));
            assert_eq!(w.loading_target, Some(label(0, 5)));
        },
        other => panic!("unexpected flow {:?}", other),
    }
}

#[test]
fn jump_out_of_range_leaves_the_program() {
    // Jump to 5 + 16 = 21, outside the 5-byte program.
    let program = vec![0x99, 0x02, 0x00, 0x10, 0x00];
    let cfg = parse_cfg(&program);
    assert_eq!(cfg.blocks.len(), 1);
    assert_eq!(cfg.blocks[0].label, label(0, 0));
    assert_eq!(cfg.blocks[0].flow, CfgFlow::Simple(Simple { next: None }));
}

#[test]
fn decode_error_at_entry_is_error_flow() {
    let program = vec![0x81, 0x01, 0x00, 0x05];
    let cfg = parse_cfg(&program);
    assert_eq!(cfg.blocks.len(), 1);
    assert!(cfg.blocks[0].actions.is_empty());
    assert!(matches!(&cfg.blocks[0].flow, CfgFlow::Error(e) if e.error.is_none()));
}
