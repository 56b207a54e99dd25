use forge_broadcast::broadcaster::{
    after_script, after_simulation, check_nonce, check_signers, default_sender, record_sequential, settle,
    sort_by_nonce, wait_for_receipts, BroadcastError, Broadcaster, DeploymentRecord, ScriptStep,
    SendOutcome, Step, SubmittedReceipt, TxInfo,
};

fn addr(b: u8) -> [u8; 20] {
    [b; 20]
}

fn tx(from: u8, nonce: u64) -> TxInfo {
    TxInfo { from: addr(from), nonce }
}

fn receipt(tag: &str, nonce: u64, tx: usize) -> SubmittedReceipt<String> {
    SubmittedReceipt { receipt: tag.to_string(), nonce, tx }
}

#[test]
fn no_signer_is_refused() {
    assert!(matches!(Broadcaster::new(vec![], false, 1), Err(BroadcastError::NoSigner)));
}

#[test]
fn legacy_follows_flag_and_chain_table() {
    let mainnet = Broadcaster::new(vec![addr(1)], false, 1).ok().unwrap();
    assert!(!mainnet.is_legacy());
    assert_eq!(mainnet.chain_id(), 1);
    let bsc = Broadcaster::new(vec![addr(1)], false, 56).ok().unwrap();
    assert!(bsc.is_legacy());
    let forced = Broadcaster::new(vec![addr(1)], true, 1).ok().unwrap();
    assert!(forced.is_legacy());
    let unknown = Broadcaster::new(vec![addr(1)], false, 987_654_321).ok().unwrap();
    assert!(!unknown.is_legacy());
}

#[test]
fn policy_depends_on_signer_count() {
    let one = Broadcaster::new(vec![addr(1)], false, 1).ok().unwrap();
    assert!(one.is_sequential());
    let two = Broadcaster::new(vec![addr(1), addr(2)], false, 1).ok().unwrap();
    assert!(!two.is_sequential());
}

#[test]
fn plan_matches_each_sender() {
    let b = Broadcaster::new(vec![addr(1), addr(2)], false, 1).ok().unwrap();
    let txs = vec![tx(2, 0), tx(1, 4), tx(2, 1)];
    let steps = b.plan(&txs, 0).ok().unwrap();
    let got: Vec<(usize, usize, u64, bool)> =
        steps.iter().map(|s| (s.tx, s.signer, s.nonce, s.check_nonce)).collect();
    assert_eq!(got, vec![(0, 1, 0, true), (1, 0, 4, true), (2, 1, 1, true)]);
}

#[test]
fn resumed_plan_skips_receipted_prefix() {
    let b = Broadcaster::new(vec![addr(1)], false, 1).ok().unwrap();
    let txs = vec![tx(1, 0), tx(1, 1), tx(1, 2), tx(1, 3)];
    let steps = b.plan(&txs, 3).ok().unwrap();
    assert_eq!(steps.len(), 1);
    assert_eq!(steps[0].tx, 3);
    assert!(!steps[0].check_nonce);
    assert_eq!(b.plan(&txs, 4).ok().unwrap().len(), 0);
    assert_eq!(b.plan(&txs, 9).ok().unwrap().len(), 0);
}

#[test]
fn unknown_sender_is_reported_with_signers() {
    let b = Broadcaster::new(vec![addr(1), addr(2)], false, 1).ok().unwrap();
    let txs = vec![tx(1, 0), tx(3, 0), tx(4, 0)];
    match b.plan(&txs, 0) {
        Err(BroadcastError::UnknownSender { tx, from, available, default_sender }) => {
            assert_eq!(tx, 1);
            assert_eq!(from, addr(3));
            assert_eq!(available, vec![addr(1), addr(2)]);
            assert!(!default_sender);
        }
        _ => panic!("expected an unknown sender"),
    }
}

#[test]
fn unknown_sender_before_resume_point_is_ignored() {
    let b = Broadcaster::new(vec![addr(1)], false, 1).ok().unwrap();
    let txs = vec![tx(3, 0), tx(1, 0)];
    assert_eq!(b.plan(&txs, 1).ok().unwrap().len(), 1);
}

#[test]
fn default_sender_gets_a_hint() {
    let b = Broadcaster::new(vec![addr(1)], false, 1).ok().unwrap();
    let txs = vec![TxInfo { from: default_sender(), nonce: 0 }];
    match b.plan(&txs, 0) {
        Err(BroadcastError::UnknownSender { default_sender: hint, .. }) => assert!(hint),
        _ => panic!("expected an unknown sender"),
    }
    assert_eq!(default_sender()[1], 0xa3);
    assert_eq!(default_sender()[19], 0x72);
}

#[test]
fn nonce_drift_fails_before_send() {
    let step = Step { tx: 0, signer: 1, nonce: 7, check_nonce: true };
    match check_nonce(&step, Some(9)) {
        Err(BroadcastError::NonceDrift { tx, declared, on_chain }) => {
            assert_eq!((tx, declared, on_chain), (0, 7, 9));
        }
        _ => panic!("expected nonce drift"),
    }
    assert!(check_nonce(&step, Some(7)).is_ok());
    assert!(matches!(check_nonce(&step, None), Err(BroadcastError::NonceUnavailable { tx: 0 })));
}

#[test]
fn multi_signer_drift_scenario() {
    let b = Broadcaster::new(vec![addr(1), addr(2)], false, 1).ok().unwrap();
    let steps = b.plan(&vec![tx(2, 7)], 0).ok().unwrap();
    assert!(steps[0].check_nonce);
    assert!(matches!(
        check_nonce(&steps[0], Some(9)),
        Err(BroadcastError::NonceDrift { declared: 7, on_chain: 9, .. })
    ));
}

#[test]
fn settle_maps_outcomes() {
    let step = Step { tx: 2, signer: 0, nonce: 5, check_nonce: false };
    let ok = settle(&step, SendOutcome::Mined("r".to_string())).ok().unwrap();
    assert_eq!((ok.receipt.as_str(), ok.nonce, ok.tx), ("r", 5, 2));
    assert!(matches!(
        settle::<String>(&step, SendOutcome::NoReceipt),
        Err(BroadcastError::ReceiptMissing { tx: 2 })
    ));
    match settle::<String>(&step, SendOutcome::Failed("gone".to_string())) {
        Err(BroadcastError::BroadcastFailed { tx, reason }) => {
            assert_eq!(tx, 2);
            assert_eq!(reason, "gone");
        }
        _ => panic!("expected a failed broadcast"),
    }
}

#[test]
fn single_signer_receipts_in_declared_order() {
    let b = Broadcaster::new(vec![addr(1)], false, 1).ok().unwrap();
    let txs = vec![tx(1, 5), tx(1, 6), tx(1, 7)];
    let steps = b.plan(&txs, 0).ok().unwrap();
    let mut record = DeploymentRecord::new(txs.clone(), "run.json".to_string());
    for (i, step) in steps.iter().enumerate() {
        let tag = format!("r{}", i);
        assert!(record_sequential(&mut record, step, SendOutcome::Mined(tag)).is_ok());
    }
    let nonces: Vec<u64> = record.receipts.iter().map(|r| r.nonce).collect();
    assert_eq!(nonces, vec![5, 6, 7]);
    let order: Vec<usize> = record.receipts.iter().map(|r| r.tx).collect();
    assert_eq!(order, vec![0, 1, 2]);
}

#[test]
fn sequential_failure_keeps_record() {
    let mut record = DeploymentRecord::new(vec![tx(1, 0)], "run.json".to_string());
    let step = Step { tx: 0, signer: 0, nonce: 0, check_nonce: false };
    let r = record_sequential::<String>(&mut record, &step, SendOutcome::NoReceipt);
    assert!(matches!(r, Err(BroadcastError::ReceiptMissing { tx: 0 })));
    assert_eq!(record.receipts.len(), 0);
}

#[test]
fn concurrent_receipts_sorted_by_nonce() {
    let mut record = DeploymentRecord::new(vec![tx(1, 0); 4], "run.json".to_string());
    record.add_receipt(receipt("old", 0, 0));
    let results = vec![
        Ok(receipt("c", 3, 3)),
        Ok(receipt("a", 1, 1)),
        Ok(receipt("b", 2, 2)),
    ];
    assert!(wait_for_receipts(results, &mut record).is_ok());
    let tags: Vec<&str> = record.receipts.iter().map(|r| r.receipt.as_str()).collect();
    assert_eq!(tags, vec!["old", "a", "b", "c"]);
}

#[test]
fn concurrent_failure_records_receipts_before_it() {
    let mut record = DeploymentRecord::new(vec![tx(1, 0); 4], "run.json".to_string());
    let results = vec![
        Ok(receipt("b", 9, 1)),
        Ok(receipt("a", 4, 0)),
        Err(BroadcastError::ReceiptMissing { tx: 2 }),
        Ok(receipt("c", 1, 3)),
    ];
    let r = wait_for_receipts(results, &mut record);
    assert!(matches!(r, Err(BroadcastError::ReceiptMissing { tx: 2 })));
    let tags: Vec<&str> = record.receipts.iter().map(|r| r.receipt.as_str()).collect();
    assert_eq!(tags, vec!["a", "b"]);
}

#[test]
fn sort_handles_empty_and_equal_nonces() {
    assert_eq!(sort_by_nonce::<String>(vec![]).len(), 0);
    let sorted = sort_by_nonce(vec![receipt("x", 2, 0), receipt("y", 1, 1), receipt("z", 2, 2)]);
    let nonces: Vec<u64> = sorted.iter().map(|r| r.nonce).collect();
    assert_eq!(nonces, vec![1, 2, 2]);
    let tags: Vec<&str> = sorted.iter().map(|r| r.receipt.as_str()).collect();
    assert_eq!(tags, vec!["y", "x", "z"]);
}

#[test]
fn script_steps() {
    assert_eq!(after_script(false, true, true), ScriptStep::FailNoTransactions);
    assert_eq!(after_script(false, true, false), ScriptStep::Finish);
    assert_eq!(after_script(true, false, true), ScriptStep::AskForRpc);
    assert_eq!(after_script(true, true, false), ScriptStep::Simulate);
    assert_eq!(after_simulation(false, true, true), ScriptStep::FailSimulation);
    assert_eq!(after_simulation(true, false, true), ScriptStep::FailScript);
    assert_eq!(after_simulation(true, true, true), ScriptStep::Broadcast);
    assert_eq!(after_simulation(true, true, false), ScriptStep::ReportSimulation);
}

#[test]
fn signer_check_needs_no_chain() {
    assert!(matches!(check_signers(&vec![]), Err(BroadcastError::NoSigner)));
    assert!(check_signers(&vec![addr(1)]).is_ok());
}

#[test]
fn equal_nonces_keep_completion_order() {
    let mut record = DeploymentRecord::new(vec![tx(1, 0); 4], "run.json".to_string());
    let results = vec![
        Ok(receipt("second-signer", 0, 1)),
        Ok(receipt("later", 1, 3)),
        Ok(receipt("first-signer", 0, 0)),
        Ok(receipt("other", 0, 2)),
    ];
    assert!(wait_for_receipts(results, &mut record).is_ok());
    let tags: Vec<&str> = record.receipts.iter().map(|r| r.receipt.as_str()).collect();
    assert_eq!(tags, vec!["second-signer", "first-signer", "other", "later"]);
}

#[test]
fn unknown_sender_reports_first_unheld() {
    let b = Broadcaster::new(vec![addr(1)], false, 1).ok().unwrap();
    let txs = vec![tx(1, 0), tx(1, 1), tx(5, 0)];
    match b.plan(&txs, 0) {
        Err(BroadcastError::UnknownSender { tx, from, .. }) => {
            assert_eq!(tx, 2);
            assert_eq!(from, addr(5));
        }
        _ => panic!("expected an unknown sender"),
    }
}
