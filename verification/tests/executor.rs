use treegraph_consensus::executor::{
    AdministratorVote, ContractEvent, EventKeys, Executor, NextValidatorSetProposal,
    PivotBlockDecision, ProcessedVMOutput, Transaction, TransactionPayload, UserTransaction,
    ValidatorSet,
};

fn executor() -> Executor {
    Executor::new(EventKeys { validator_set_change: vec![1, 1], pivot_select: vec![2, 2] })
}

fn event(key: &[u8]) -> ContractEvent {
    ContractEvent {
        key: key.to_vec(),
        proposal: Ok(NextValidatorSetProposal {
            this_epoch: 4,
            next_validator_set: ValidatorSet { bytes: vec![9, 9] },
        }),
        pivot: Ok(PivotBlockDecision { bytes: vec![8] }),
    }
}

fn user(payload: TransactionPayload) -> UserTransaction {
    UserTransaction {
        signature: Ok(()),
        is_admin_type: false,
        vote: AdministratorVote::NotSet,
        payload,
    }
}

fn run(transactions: Vec<Transaction>) -> Result<ProcessedVMOutput, String> {
    executor().execute_block(transactions, Some(PivotBlockDecision { bytes: vec![7] }), 4)
}

fn message(r: Result<ProcessedVMOutput, String>) -> String {
    match r {
        Ok(_) => panic!("the block was executed"),
        Err(e) => e,
    }
}

fn write_set(key: &[u8]) -> Transaction {
    Transaction::UserTransaction(user(TransactionPayload::WriteSet(vec![event(key)])))
}

#[test]
fn metadata_changes_nothing() {
    for count in 0..3 {
        let mut transactions = Vec::new();
        for _ in 0..count {
            transactions.push(Transaction::BlockMetadata);
        }
        let output = run(transactions).unwrap();
        assert!(output.validators().is_none());
        assert_eq!(output.pivot_block().as_ref().unwrap().bytes, vec![7]);
        assert!(!output.pivot_updated());
    }
}

#[test]
fn a_pivot_block_is_selected() {
    let output = run(vec![Transaction::BlockMetadata, write_set(&[2, 2])]).unwrap();
    assert!(output.validators().is_none());
    assert_eq!(output.pivot_block().as_ref().unwrap().bytes, vec![8]);
    assert!(output.pivot_updated());
    let result = output.state_compute_result();
    assert!(!result.has_reconfiguration());
    assert_eq!(result.executed_state.pivot.unwrap().bytes, vec![8]);
}

#[test]
fn the_validators_change() {
    let output = run(vec![Transaction::WriteSet(vec![event(&[1, 1])])]).unwrap();
    assert_eq!(output.validators().as_ref().unwrap().bytes, vec![9, 9]);
    assert_eq!(output.pivot_block().as_ref().unwrap().bytes, vec![7]);
    assert!(!output.pivot_updated());
    let result = output.state_compute_result();
    assert!(result.has_reconfiguration());
    assert_eq!(result.executed_state.validators.unwrap().bytes, vec![9, 9]);
    assert_eq!(result.executed_state.pivot.unwrap().bytes, vec![7]);
}

#[test]
fn an_event_with_another_key_is_ignored() {
    let output = run(vec![write_set(&[3])]).unwrap();
    assert!(output.validators().is_none());
    assert!(!output.pivot_updated());
    assert_eq!(output.pivot_block().as_ref().unwrap().bytes, vec![7]);
}

#[test]
fn validators_can_be_set() {
    let mut output = ProcessedVMOutput::new(None, None, false);
    output.set_validators(ValidatorSet { bytes: vec![5] });
    assert_eq!(output.validators().as_ref().unwrap().bytes, vec![5]);
    assert!(output.pivot_block().is_none());
    let result = output.state_compute_result();
    assert!(result.has_reconfiguration());
    assert!(result.executed_state.pivot.is_none());
}

#[test]
fn a_block_holds_at_most_two_transactions() {
    let three = vec![
        Transaction::BlockMetadata,
        Transaction::BlockMetadata,
        Transaction::BlockMetadata,
    ];
    assert_eq!(
        message(run(three)),
        "One block can at most contain 1 user transaction for proposal."
    );
}

#[test]
fn a_block_has_at_most_one_output() {
    assert_eq!(
        message(run(vec![write_set(&[2, 2]), write_set(&[2, 2])])),
        "Failed to execute block: One block can have at most one transaction output!"
    );
}

#[test]
fn a_wrong_signature_is_refused_first() {
    let mut tx = user(TransactionPayload::Other);
    tx.signature = Err("bad signature".to_string());
    tx.is_admin_type = true;
    assert_eq!(message(run(vec![Transaction::UserTransaction(tx)])), "bad signature");
}

#[test]
fn administrators_have_to_agree() {
    let votes = vec![
        (AdministratorVote::NotSet, "Administrators are not set."),
        (
            AdministratorVote::TooLittleVotingPower,
            "Not enough voting power in administrators.",
        ),
        (AdministratorVote::UnknownSigner, "There are signers not in administrators."),
    ];
    for (vote, refused) in votes {
        let mut tx = user(TransactionPayload::WriteSet(vec![event(&[2, 2])]));
        tx.is_admin_type = true;
        tx.vote = vote;
        assert_eq!(message(run(vec![Transaction::UserTransaction(tx)])), refused);
    }
    let mut tx = user(TransactionPayload::WriteSet(vec![event(&[2, 2])]));
    tx.is_admin_type = true;
    tx.vote = AdministratorVote::Enough;
    assert!(run(vec![Transaction::UserTransaction(tx)]).unwrap().pivot_updated());
}

#[test]
fn a_payload_has_to_write_one_event() {
    assert_eq!(
        message(run(vec![Transaction::UserTransaction(user(TransactionPayload::Other))])),
        "Wrong transaction payload"
    );
    let none = user(TransactionPayload::WriteSet(vec![]));
    assert_eq!(
        message(run(vec![Transaction::UserTransaction(none)])),
        "One transaction can contain exactly 1 event."
    );
    assert_eq!(
        message(run(vec![Transaction::WriteSet(vec![event(&[1, 1]), event(&[1, 1])])])),
        "One transaction can contain exactly 1 event."
    );
}

#[test]
fn a_proposal_has_to_be_for_the_epoch() {
    let output = executor().execute_block(vec![write_set(&[1, 1])], None, 5);
    assert_eq!(message(output), "Failed to execute block: Wrong epoch proposal.");
}

#[test]
fn unreadable_data_are_refused() {
    let mut e = event(&[1, 1]);
    e.proposal = Err("short input".to_string());
    assert_eq!(
        message(run(vec![Transaction::WriteSet(vec![e])])),
        "Failed to execute block: short input"
    );
    let mut e = event(&[2, 2]);
    e.pivot = Err("long input".to_string());
    assert_eq!(
        message(run(vec![Transaction::WriteSet(vec![e])])),
        "Failed to execute block: long input"
    );
    // What is not read does not matter.
    let mut e = event(&[2, 2]);
    e.proposal = Err("short input".to_string());
    assert!(run(vec![Transaction::WriteSet(vec![e])]).is_ok());
}
