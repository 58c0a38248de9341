//! What a block of the agreement protocol does: it may change the validators of
//! the next epoch or select a pivot block.

use vstd::prelude::*;

verus! {

/// A set of validators, in its serialised form.
#[derive(Debug)]
pub struct ValidatorSet {
    pub bytes: Vec<u8>,
}

/// A decision for a pivot block, in its serialised form.
#[derive(Debug)]
pub struct PivotBlockDecision {
    pub bytes: Vec<u8>,
}

/// The validators that are to follow those of an epoch.
#[derive(Debug)]
pub struct NextValidatorSetProposal {
    pub this_epoch: u64,
    pub next_validator_set: ValidatorSet,
}

/// An event: its key, and what its data say when read as a proposal and when
/// read as a decision.
#[derive(Debug)]
pub struct ContractEvent {
    pub key: Vec<u8>,
    pub proposal: Result<NextValidatorSetProposal, String>,
    pub pivot: Result<PivotBlockDecision, String>,
}

/// The keys of the events that matter.
pub struct EventKeys {
    pub validator_set_change: Vec<u8>,
    pub pivot_select: Vec<u8>,
}

/// What the administrators say of the signers of a transaction.
#[derive(Clone, Copy, Debug, PartialEq, Eq, Structural)]
pub enum AdministratorVote {
    NotSet,
    Enough,
    TooLittleVotingPower,
    UnknownSigner,
}

#[derive(Debug)]
pub enum TransactionPayload {
    WriteSet(Vec<ContractEvent>),
    Other,
}

/// A transaction that was signed.
#[derive(Debug)]
pub struct UserTransaction {
    /// Why the signature is wrong, if it is.
    pub signature: Result<(), String>,
    pub is_admin_type: bool,
    pub vote: AdministratorVote,
    pub payload: TransactionPayload,
}

#[derive(Debug)]
pub enum Transaction {
    BlockMetadata,
    UserTransaction(UserTransaction),
    WriteSet(Vec<ContractEvent>),
}

/// The state that a proposed block leads to.
#[derive(Debug)]
pub struct ExecutedState {
    /// The last pivot block that was selected.
    pub pivot: Option<PivotBlockDecision>,
    /// The validators to change to if the block is committed.
    pub validators: Option<ValidatorSet>,
}

/// What the protocol has to agree on after executing a block.
#[derive(Debug)]
pub struct StateComputeResult {
    pub executed_state: ExecutedState,
}

/// What executing a block brought about.
#[derive(Debug)]
pub struct ProcessedVMOutput {
    /// The validators to change to if the block is committed.
    pub validators: Option<ValidatorSet>,
    /// The pivot block that is selected.
    pub pivot_block: Option<PivotBlockDecision>,
    /// Whether this block selected it.
    pub pivot_updated: bool,
}

/// Why a transaction is refused before its event is looked at.
pub open spec fn refusal(tx: Transaction) -> Option<Seq<char>> {
    match tx {
        Transaction::BlockMetadata => None,
        Transaction::UserTransaction(user) => match user.signature {
            Err(e) => Some(e@),
            Ok(_) => if user.is_admin_type && user.vote is NotSet {
                Some("Administrators are not set."@)
            } else if user.is_admin_type && user.vote is TooLittleVotingPower {
                Some("Not enough voting power in administrators."@)
            } else if user.is_admin_type && user.vote is UnknownSigner {
                Some("There are signers not in administrators."@)
            } else {
                match user.payload {
                    TransactionPayload::WriteSet(events) => if events@.len() != 1 {
                        Some("One transaction can contain exactly 1 event."@)
                    } else {
                        None
                    },
                    TransactionPayload::Other => Some("Wrong transaction payload"@),
                }
            },
        },
        Transaction::WriteSet(events) => if events@.len() != 1 {
            Some("One transaction can contain exactly 1 event."@)
        } else {
            None
        },
    }
}

/// The event of a transaction that is not refused.
pub open spec fn event_of(tx: Transaction) -> Option<ContractEvent> {
    match tx {
        Transaction::BlockMetadata => None,
        Transaction::UserTransaction(user) => match user.payload {
            TransactionPayload::WriteSet(events) => Some(events@[0]),
            TransactionPayload::Other => None,
        },
        Transaction::WriteSet(events) => Some(events@[0]),
    }
}

/// The events of transactions up to the first that is refused, or why that one
/// is.
pub open spec fn events_of(transactions: Seq<Transaction>) -> Result<Seq<ContractEvent>, Seq<char>>
    decreases transactions.len(),
{
    if transactions.len() == 0 {
        Ok(Seq::empty())
    } else {
        match refusal(transactions[0]) {
            Some(e) => Err(e),
            None => match events_of(transactions.skip(1)) {
                Err(e) => Err(e),
                Ok(rest) => match event_of(transactions[0]) {
                    Some(event) => Ok(seq![event] + rest),
                    None => Ok(rest),
                },
            },
        }
    }
}

/// What events bring about. A change of the validators comes before a selection
/// of a pivot block, should both have the same key.
pub open spec fn outcome(
    events: Seq<ContractEvent>,
    last_pivot: Option<PivotBlockDecision>,
    current_epoch: u64,
    keys: EventKeys,
) -> Result<ProcessedVMOutput, Seq<char>> {
    if events.len() > 1 {
        Err("One block can have at most one transaction output!"@)
    } else if events.len() == 1 && events[0].key@ == keys.validator_set_change@ {
        match events[0].proposal {
            Err(e) => Err(e@),
            Ok(proposal) => if proposal.this_epoch != current_epoch {
                Err("Wrong epoch proposal."@)
            } else {
                Ok(
                    ProcessedVMOutput {
                        validators: Some(proposal.next_validator_set),
                        pivot_block: last_pivot,
                        pivot_updated: false,
                    },
                )
            },
        }
    } else if events.len() == 1 && events[0].key@ == keys.pivot_select@ {
        match events[0].pivot {
            Err(e) => Err(e@),
            Ok(pivot) => Ok(
                ProcessedVMOutput {
                    validators: None,
                    pivot_block: Some(pivot),
                    pivot_updated: true,
                },
            ),
        }
    } else {
        Ok(ProcessedVMOutput { validators: None, pivot_block: last_pivot, pivot_updated: false })
    }
}

/// What executing a block brings about, or why it fails.
pub open spec fn executed(
    transactions: Seq<Transaction>,
    last_pivot: Option<PivotBlockDecision>,
    current_epoch: u64,
    keys: EventKeys,
) -> Result<ProcessedVMOutput, Seq<char>> {
    if transactions.len() > 2 {
        Err("One block can at most contain 1 user transaction for proposal."@)
    } else {
        match events_of(transactions) {
            Err(e) => Err(e),
            Ok(events) => match outcome(events, last_pivot, current_epoch, keys) {
                Err(e) => Err("Failed to execute block: "@ + e),
                Ok(output) => Ok(output),
            },
        }
    }
}

/// A block changes the validators or selects a pivot block, never both, and
/// without a selection the pivot block stays.
pub proof fn lemma_one_effect(
    transactions: Seq<Transaction>,
    last_pivot: Option<PivotBlockDecision>,
    current_epoch: u64,
    keys: EventKeys,
)
    ensures
        executed(transactions, last_pivot, current_epoch, keys) matches Ok(output) ==> {
            &&& output.pivot_updated ==> output.validators is None && output.pivot_block is Some
            &&& !output.pivot_updated ==> output.pivot_block == last_pivot
        },
{
}

/// A block of metadata alone changes nothing.
pub proof fn lemma_metadata_only(
    transactions: Seq<Transaction>,
    last_pivot: Option<PivotBlockDecision>,
    current_epoch: u64,
    keys: EventKeys,
)
    requires
        transactions.len() <= 2,
        forall|i: int| 0 <= i < transactions.len() ==> (#[trigger] transactions[i]) is BlockMetadata,
    ensures
        executed(transactions, last_pivot, current_epoch, keys) == Ok::<
            ProcessedVMOutput,
            Seq<char>,
        >(
            (ProcessedVMOutput {
                validators: None,
                pivot_block: last_pivot,
                pivot_updated: false,
            }),
        ),
{
    lemma_no_events(transactions);
}

proof fn lemma_no_events(transactions: Seq<Transaction>)
    requires
        forall|i: int| 0 <= i < transactions.len() ==> (#[trigger] transactions[i]) is BlockMetadata,
    ensures
        events_of(transactions) == Ok::<Seq<ContractEvent>, Seq<char>>(Seq::empty()),
    decreases transactions.len(),
{
    if transactions.len() > 0 {
        let rest = transactions.skip(1);
        assert forall|i: int| 0 <= i < rest.len() implies (#[trigger] rest[i]) is BlockMetadata by {
            assert(rest[i] == transactions[i + 1]);
        }
        assert(transactions[0] is BlockMetadata);
        lemma_no_events(rest);
    }
}

/// The events that a transaction carries.
pub open spec fn carried(tx: Transaction) -> Seq<ContractEvent> {
    match tx {
        Transaction::BlockMetadata => Seq::empty(),
        Transaction::UserTransaction(user) => match user.payload {
            TransactionPayload::WriteSet(events) => events@,
            TransactionPayload::Other => Seq::empty(),
        },
        Transaction::WriteSet(events) => events@,
    }
}

/// A transaction may stand in a block: it is metadata, or it carries one event
/// and, if it was signed, its signature is right and the administrators approve of
/// one that is for them.
pub open spec fn admissible(tx: Transaction) -> bool {
    tx is BlockMetadata || carried(tx).len() == 1 && (tx matches Transaction::UserTransaction(user)
        ==> user.signature is Ok && (user.is_admin_type ==> user.vote is Enough))
}

/// An event can take effect in an epoch: a change of the validators must be
/// readable and be meant for that very epoch, and a selection of a pivot block must
/// be readable.
pub open spec fn can_take_effect(event: ContractEvent, current_epoch: u64, keys: EventKeys) -> bool {
    &&& event.key@ == keys.validator_set_change@ ==> (event.proposal matches Ok(p)
        && p.this_epoch == current_epoch)
    &&& event.key@ != keys.validator_set_change@ && event.key@ == keys.pivot_select@
        ==> event.pivot is Ok
}

/// The events of one or two transactions.
proof fn lemma_events_unfold(transactions: Seq<Transaction>)
    requires
        transactions.len() <= 2,
    ensures
        events_of(transactions) is Ok <==> forall|i: int|
            0 <= i < transactions.len() ==> admissible(#[trigger] transactions[i]),
        events_of(transactions) matches Ok(events) ==> events == (if transactions.len() == 0 {
            Seq::<ContractEvent>::empty()
        } else if transactions.len() == 1 {
            carried(transactions[0])
        } else {
            carried(transactions[0]) + carried(transactions[1])
        }),
{
    if transactions.len() == 0 {
    } else if transactions.len() == 1 {
        let rest = transactions.skip(1);
        assert(rest.len() == 0);
        assert(events_of(rest) == Ok::<Seq<ContractEvent>, Seq<char>>(Seq::empty()));
        if event_of(transactions[0]) is Some && refusal(transactions[0]) is None {
            let event = event_of(transactions[0])->Some_0;
            assert(seq![event] + Seq::<ContractEvent>::empty() =~= carried(transactions[0]));
        }
    } else {
        let rest = transactions.skip(1);
        let none = rest.skip(1);
        assert(rest.len() == 1 && none.len() == 0);
        assert(rest[0] == transactions[1]);
        assert(events_of(none) == Ok::<Seq<ContractEvent>, Seq<char>>(Seq::empty()));
        if event_of(rest[0]) is Some && refusal(rest[0]) is None {
            let event = event_of(rest[0])->Some_0;
            assert(seq![event] + Seq::<ContractEvent>::empty() =~= carried(rest[0]));
        }
        if refusal(rest[0]) is None {
            assert(events_of(rest) == Ok::<Seq<ContractEvent>, Seq<char>>(carried(rest[0])));
            if event_of(transactions[0]) is Some && refusal(transactions[0]) is None {
                assert(seq![event_of(transactions[0])->Some_0] =~= carried(transactions[0]));
            }
            assert(Seq::<ContractEvent>::empty() + carried(rest[0]) =~= carried(rest[0]));
        } else {
            assert(events_of(rest) is Err);
        }
    }
}

/// A block can be executed if and only if it holds at most two transactions, each
/// of them admissible, at most one of them with an event, and that event can take
/// effect in the current epoch.
pub proof fn lemma_executed_iff(
    transactions: Seq<Transaction>,
    last_pivot: Option<PivotBlockDecision>,
    current_epoch: u64,
    keys: EventKeys,
)
    ensures
        executed(transactions, last_pivot, current_epoch, keys) is Ok <==> {
            &&& transactions.len() <= 2
            &&& forall|i: int|
                0 <= i < transactions.len() ==> admissible(#[trigger] transactions[i])
            &&& forall|i: int, j: int|
                0 <= i < j < transactions.len() ==> (#[trigger] transactions[i]) is BlockMetadata
                    || (#[trigger] transactions[j]) is BlockMetadata
            &&& forall|i: int|
                0 <= i < transactions.len() && !((#[trigger] transactions[i]) is BlockMetadata)
                    ==> can_take_effect(carried(transactions[i])[0], current_epoch, keys)
        },
{
    if transactions.len() <= 2 {
        lemma_events_unfold(transactions);
        if events_of(transactions) is Ok {
            let events = events_of(transactions)->Ok_0;
            if transactions.len() == 1 {
                let t = transactions[0];
                assert(admissible(t));
            }
            if transactions.len() == 2 {
                let t = transactions[0];
                let u = transactions[1];
                assert(admissible(t) && admissible(u));
                if !(t is BlockMetadata) {
                    assert(events[0] == carried(t)[0]);
                } else {
                    assert(events =~= carried(u));
                }
                if !(t is BlockMetadata) && !(u is BlockMetadata) {
                    assert(events.len() == 2);
                }
            }
        }
    }
}

/// If executing a block changes the validators, then one of its transactions
/// carries the one event of the block: a readable proposal for the current epoch,
/// and the new validators are the proposed ones.
pub proof fn lemma_validators_as_proposed(
    transactions: Seq<Transaction>,
    last_pivot: Option<PivotBlockDecision>,
    current_epoch: u64,
    keys: EventKeys,
    output: ProcessedVMOutput,
)
    requires
        executed(transactions, last_pivot, current_epoch, keys) == Ok::<
            ProcessedVMOutput,
            Seq<char>,
        >(output),
        output.validators is Some,
    ensures
        exists|i: int|
            0 <= i < transactions.len() && carried(#[trigger] transactions[i]).len() == 1 && (
            forall|j: int|
                0 <= j < transactions.len() && j != i ==> (
                #[trigger] transactions[j]) is BlockMetadata) && carried(
                transactions[i],
            )[0].key@ == keys.validator_set_change@ && (carried(
                transactions[i],
            )[0].proposal matches Ok(p) && p.this_epoch == current_epoch && output.validators
                == Some(p.next_validator_set)),
        !output.pivot_updated,
        output.pivot_block == last_pivot,
{
    lemma_events_unfold(transactions);
    lemma_executed_iff(transactions, last_pivot, current_epoch, keys);
    let i = lemma_block_event(transactions);
    assert(carried(transactions[i]).len() == 1);
}

/// Where the events of a block are one, the transaction that carries it.
proof fn lemma_block_event(transactions: Seq<Transaction>) -> (i: int)
    requires
        transactions.len() <= 2,
        events_of(transactions) matches Ok(events) && events.len() == 1,
    ensures
        0 <= i < transactions.len(),
        !(transactions[i] is BlockMetadata),
        events_of(transactions)->Ok_0 == carried(transactions[i]),
        forall|j: int|
            0 <= j < transactions.len() && j != i ==> (#[trigger] transactions[j]) is BlockMetadata,
{
    lemma_events_unfold(transactions);
    let events = events_of(transactions)->Ok_0;
    if transactions.len() == 1 {
        assert(admissible(transactions[0]));
        0
    } else {
        assert(admissible(transactions[0]) && admissible(transactions[1]));
        if transactions[0] is BlockMetadata {
            assert(events =~= carried(transactions[1]));
            1
        } else {
            assert(carried(transactions[1]).len() == 0);
            assert(events =~= carried(transactions[0]));
            0
        }
    }
}

/// If executing a block selects a pivot block, then one of its transactions carries
/// the one event of the block: a readable selection, and the pivot block is the
/// selected one.
pub proof fn lemma_pivot_as_selected(
    transactions: Seq<Transaction>,
    last_pivot: Option<PivotBlockDecision>,
    current_epoch: u64,
    keys: EventKeys,
    output: ProcessedVMOutput,
)
    requires
        executed(transactions, last_pivot, current_epoch, keys) == Ok::<
            ProcessedVMOutput,
            Seq<char>,
        >(output),
        output.pivot_updated,
    ensures
        exists|i: int|
            0 <= i < transactions.len() && carried(#[trigger] transactions[i]).len() == 1 && (
            forall|j: int|
                0 <= j < transactions.len() && j != i ==> (
                #[trigger] transactions[j]) is BlockMetadata) && carried(
                transactions[i],
            )[0].key@ == keys.pivot_select@ && (carried(transactions[i])[0].pivot matches Ok(p)
                && output.pivot_block == Some(p)),
        output.validators is None,
{
    lemma_events_unfold(transactions);
    let i = lemma_block_event(transactions);
    assert(carried(transactions[i]).len() == 1);
}

/// An event of a block that is executed takes effect: a proposal changes the
/// validators to the proposed ones, a selection selects its pivot block, and
/// anything else changes nothing.
pub proof fn lemma_event_takes_effect(
    transactions: Seq<Transaction>,
    last_pivot: Option<PivotBlockDecision>,
    current_epoch: u64,
    keys: EventKeys,
    output: ProcessedVMOutput,
    i: int,
)
    requires
        executed(transactions, last_pivot, current_epoch, keys) == Ok::<
            ProcessedVMOutput,
            Seq<char>,
        >(output),
        0 <= i < transactions.len(),
        !(transactions[i] is BlockMetadata),
    ensures
        ({
            let event = carried(transactions[i])[0];
            if event.key@ == keys.validator_set_change@ {
                &&& event.proposal matches Ok(p) && output.validators == Some(p.next_validator_set)
                &&& output.pivot_block == last_pivot
                &&& !output.pivot_updated
            } else if event.key@ == keys.pivot_select@ {
                &&& event.pivot matches Ok(p) && output.pivot_block == Some(p)
                &&& output.pivot_updated
                &&& output.validators is None
            } else {
                &&& output.validators is None
                &&& output.pivot_block == last_pivot
                &&& !output.pivot_updated
            }
        }),
{
    lemma_events_unfold(transactions);
    lemma_executed_iff(transactions, last_pivot, current_epoch, keys);
    let events = events_of(transactions)->Ok_0;
    assert(admissible(transactions[i]));
    if transactions.len() == 2 {
        assert(admissible(transactions[1 - i]));
        assert(transactions[1 - i] is BlockMetadata);
    }
    assert(events.len() == 1);
    let k = lemma_block_event(transactions);
    assert(k == i);
}

/// Of several faults the first transaction with one decides, and in it a wrong
/// signature comes before the administrators, and they before what it carries.
pub proof fn lemma_first_fault_decides(
    transactions: Seq<Transaction>,
    last_pivot: Option<PivotBlockDecision>,
    current_epoch: u64,
    keys: EventKeys,
    i: int,
)
    requires
        transactions.len() <= 2,
        0 <= i < transactions.len(),
        !admissible(transactions[i]),
        forall|j: int| 0 <= j < i ==> admissible(#[trigger] transactions[j]),
    ensures
        executed(transactions, last_pivot, current_epoch, keys) matches Err(text) && {
            match transactions[i] {
                Transaction::UserTransaction(user) => {
                    &&& user.signature matches Err(e) ==> text == e@
                    &&& user.signature is Ok && user.is_admin_type && user.vote is NotSet ==> text
                        == "Administrators are not set."@
                    &&& user.signature is Ok && user.is_admin_type
                        && user.vote is TooLittleVotingPower ==> text
                        == "Not enough voting power in administrators."@
                    &&& user.signature is Ok && user.is_admin_type && user.vote is UnknownSigner
                        ==> text == "There are signers not in administrators."@
                    &&& user.signature is Ok && (user.is_admin_type ==> user.vote is Enough) ==> (
                    if user.payload is Other {
                        text == "Wrong transaction payload"@
                    } else {
                        text == "One transaction can contain exactly 1 event."@
                    })
                },
                _ => text == "One transaction can contain exactly 1 event."@,
            }
        },
{
    if i == 1 {
        assert(admissible(transactions[0]));
        assert(transactions.skip(1)[0] == transactions[1]);
        assert(events_of(transactions.skip(1)) is Err);
    }
}

/// What is told of a block whose transactions are all right and whose execution
/// fails, and of one with too many transactions.
pub proof fn lemma_failure_told(
    transactions: Seq<Transaction>,
    last_pivot: Option<PivotBlockDecision>,
    current_epoch: u64,
    keys: EventKeys,
)
    requires
        executed(transactions, last_pivot, current_epoch, keys) is Err,
    ensures
        ({
            let text = executed(transactions, last_pivot, current_epoch, keys)->Err_0;
            &&& transactions.len() > 2 ==> text
                == "One block can at most contain 1 user transaction for proposal."@
            &&& transactions.len() == 2 && (forall|i: int|
                0 <= i < transactions.len() ==> admissible(#[trigger] transactions[i]) && !(
                transactions[i] is BlockMetadata)) ==> text == "Failed to execute block: "@
                + "One block can have at most one transaction output!"@
            &&& forall|i: int|
                0 <= i < transactions.len() <= 2 && !((
                #[trigger] transactions[i]) is BlockMetadata) && admissible(transactions[i]) && (
                forall|j: int|
                    0 <= j < transactions.len() && j != i ==> (
                    #[trigger] transactions[j]) is BlockMetadata) ==> {
                    let event = carried(transactions[i])[0];
                    text == "Failed to execute block: "@ + (if event.key@
                        == keys.validator_set_change@ {
                        match event.proposal {
                            Ok(_) => "Wrong epoch proposal."@,
                            Err(e) => e@,
                        }
                    } else {
                        event.pivot->Err_0@
                    })
                }
        }),
{
    if transactions.len() <= 2 {
        lemma_events_unfold(transactions);
        if transactions.len() == 2 && (forall|i: int|
            0 <= i < transactions.len() ==> admissible(#[trigger] transactions[i]) && !(
            transactions[i] is BlockMetadata)) {
            assert(admissible(transactions[0]) && admissible(transactions[1]));
        }
        assert forall|i: int|
            0 <= i < transactions.len() && !((#[trigger] transactions[i]) is BlockMetadata)
                && admissible(transactions[i]) && (forall|j: int|
                0 <= j < transactions.len() && j != i ==> (
                #[trigger] transactions[j]) is BlockMetadata) implies events_of(transactions)
            == Ok::<Seq<ContractEvent>, Seq<char>>(carried(transactions[i])) by {
            assert forall|j: int| 0 <= j < transactions.len() implies admissible(
                #[trigger] transactions[j],
            ) by {}
            let events = events_of(transactions)->Ok_0;
            if transactions.len() == 2 {
                assert(carried(transactions[1 - i]) =~= Seq::<ContractEvent>::empty());
                assert(events =~= carried(transactions[i]));
            }
        }
    }
}

fn bytes_equal(a: &Vec<u8>, b: &Vec<u8>) -> (equal: bool)
    ensures
        equal == (a@ == b@),
{
    if a.len() != b.len() {
        return false;
    }
    let mut i: usize = 0;
    while i < a.len()
        invariant
            a@.len() == b@.len(),
            i <= a@.len(),
            forall|j: int| 0 <= j < i ==> #[trigger] a@[j] == b@[j],
        decreases a@.len() - i,
    {
        if a[i] != b[i] {
            return false;
        }
        i += 1;
    }
    assert(a@ =~= b@);
    true
}

fn copy_bytes(bytes: &Vec<u8>) -> (copy: Vec<u8>)
    ensures
        copy@ == bytes@,
{
    let mut copy: Vec<u8> = Vec::new();
    let mut i: usize = 0;
    while i < bytes.len()
        invariant
            i <= bytes@.len(),
            copy@ =~= bytes@.take(i as int),
        decreases bytes@.len() - i,
    {
        copy.push(bytes[i]);
        i += 1;
    }
    copy
}

impl StateComputeResult {
    /// Whether the validators change.
    pub fn has_reconfiguration(&self) -> (changes: bool)
        ensures
            changes == (self.executed_state.validators is Some),
    {
        self.executed_state.validators.is_some()
    }
}

impl ProcessedVMOutput {
    pub fn new(
        validators: Option<ValidatorSet>,
        pivot_block: Option<PivotBlockDecision>,
        pivot_updated: bool,
    ) -> (output: ProcessedVMOutput)
        ensures
            output == (ProcessedVMOutput { validators, pivot_block, pivot_updated }),
    {
        ProcessedVMOutput { validators, pivot_block, pivot_updated }
    }

    pub fn validators(&self) -> (validators: &Option<ValidatorSet>)
        ensures
            *validators == self.validators,
    {
        &self.validators
    }

    pub fn pivot_block(&self) -> (pivot_block: &Option<PivotBlockDecision>)
        ensures
            *pivot_block == self.pivot_block,
    {
        &self.pivot_block
    }

    pub fn pivot_updated(&self) -> (updated: bool)
        ensures
            updated == self.pivot_updated,
    {
        self.pivot_updated
    }

    pub fn set_validators(&mut self, validator_set: ValidatorSet)
        ensures
            *final(self) == (ProcessedVMOutput {
                validators: Some(validator_set),
                ..*old(self)
            }),
    {
        self.validators = Some(validator_set);
    }

    /// What the protocol has to agree on.
    pub fn state_compute_result(&self) -> (result: StateComputeResult)
        ensures
            match self.validators {
                Some(v) => result.executed_state.validators matches Some(w) && w.bytes@ == v.bytes@,
                None => result.executed_state.validators is None,
            },
            match self.pivot_block {
                Some(p) => result.executed_state.pivot matches Some(q) && q.bytes@ == p.bytes@,
                None => result.executed_state.pivot is None,
            },
    {
        let pivot: Option<PivotBlockDecision> = match &self.pivot_block {
            Some(p) => Some(PivotBlockDecision { bytes: copy_bytes(&p.bytes) }),
            None => None,
        };
        let validators: Option<ValidatorSet> = match &self.validators {
            Some(v) => Some(ValidatorSet { bytes: copy_bytes(&v.bytes) }),
            None => None,
        };
        StateComputeResult { executed_state: ExecutedState { pivot, validators } }
    }
}

/// The event of a list of one.
fn single_event(events: Vec<ContractEvent>) -> (event: Result<ContractEvent, String>)
    ensures
        match event {
            Ok(e) => events@.len() == 1 && e == events@[0],
            Err(e) => events@.len() != 1 && e@ == "One transaction can contain exactly 1 event."@,
        },
{
    let mut events = events;
    if events.len() != 1 {
        return Err("One transaction can contain exactly 1 event.".to_owned());
    }
    Ok(events.remove(0))
}

/// The event of a transaction, or why the transaction is refused.
fn execute_transaction(tx: Transaction) -> (event: Result<Option<ContractEvent>, String>)
    ensures
        match event {
            Ok(e) => refusal(tx) is None && e == event_of(tx),
            Err(e) => refusal(tx) == Some(e@),
        },
{
    match tx {
        Transaction::BlockMetadata => Ok(None),
        Transaction::UserTransaction(user) => {
            match user.signature {
                Err(e) => {
                    return Err(e);
                },
                Ok(_) => {},
            }
            if user.is_admin_type {
                match user.vote {
                    AdministratorVote::NotSet => {
                        return Err("Administrators are not set.".to_owned());
                    },
                    AdministratorVote::Enough => {},
                    AdministratorVote::TooLittleVotingPower => {
                        return Err("Not enough voting power in administrators.".to_owned());
                    },
                    AdministratorVote::UnknownSigner => {
                        return Err("There are signers not in administrators.".to_owned());
                    },
                }
            }
            match user.payload {
                TransactionPayload::WriteSet(events) => match single_event(events) {
                    Ok(event) => Ok(Some(event)),
                    Err(e) => Err(e),
                },
                TransactionPayload::Other => Err("Wrong transaction payload".to_owned()),
            }
        },
        Transaction::WriteSet(events) => match single_event(events) {
            Ok(event) => Ok(Some(event)),
            Err(e) => Err(e),
        },
    }
}

/// Executes blocks of the agreement protocol.
pub struct Executor {
    pub keys: EventKeys,
}

impl Executor {
    pub fn new(keys: EventKeys) -> (executor: Executor)
        ensures
            executor.keys == keys,
    {
        Executor { keys }
    }

    /// What the events of a block bring about.
    fn process_vm_outputs(
        &self,
        events: Vec<ContractEvent>,
        last_pivot: Option<PivotBlockDecision>,
        current_epoch: u64,
    ) -> (output: Result<ProcessedVMOutput, String>)
        ensures
            match output {
                Ok(o) => outcome(events@, last_pivot, current_epoch, self.keys) == Ok::<
                    ProcessedVMOutput,
                    Seq<char>,
                >(o),
                Err(e) => outcome(events@, last_pivot, current_epoch, self.keys) == Err::<
                    ProcessedVMOutput,
                    Seq<char>,
                >(e@),
            },
    {
        let mut events = events;
        if events.len() > 1 {
            return Err("One block can have at most one transaction output!".to_owned());
        }
        if events.len() == 1 {
            let event: ContractEvent = events.remove(0);
            if bytes_equal(&event.key, &self.keys.validator_set_change) {
                return match event.proposal {
                    Err(e) => Err(e),
                    Ok(proposal) => {
                        if proposal.this_epoch != current_epoch {
                            Err("Wrong epoch proposal.".to_owned())
                        } else {
                            Ok(
                                ProcessedVMOutput::new(
                                    Some(proposal.next_validator_set),
                                    last_pivot,
                                    false,
                                ),
                            )
                        }
                    },
                };
            }
            if bytes_equal(&event.key, &self.keys.pivot_select) {
                return match event.pivot {
                    Err(e) => Err(e),
                    Ok(pivot) => Ok(ProcessedVMOutput::new(None, Some(pivot), true)),
                };
            }
        }
        Ok(ProcessedVMOutput::new(None, last_pivot, false))
    }

    /// Executes a block: refuses it if one of its transactions is to be refused, and
    /// else works out what its event brings about.
    pub fn execute_block(
        &self,
        transactions: Vec<Transaction>,
        last_pivot: Option<PivotBlockDecision>,
        current_epoch: u64,
    ) -> (output: Result<ProcessedVMOutput, String>)
        ensures
            match output {
                Ok(o) => executed(transactions@, last_pivot, current_epoch, self.keys) == Ok::<
                    ProcessedVMOutput,
                    Seq<char>,
                >(o),
                Err(e) => executed(transactions@, last_pivot, current_epoch, self.keys) == Err::<
                    ProcessedVMOutput,
                    Seq<char>,
                >(e@),
            },
    {
        if transactions.len() > 2 {
            return Err(
                "One block can at most contain 1 user transaction for proposal.".to_owned(),
            );
        }
        let ghost all = transactions@;
        let mut left = transactions;
        let mut events: Vec<ContractEvent> = Vec::new();
        while left.len() > 0
            invariant
                events_of(all) == (match events_of(left@) {
                    Ok(rest) => Ok::<Seq<ContractEvent>, Seq<char>>(events@ + rest),
                    Err(e) => Err(e),
                }),
                all.len() <= 2,
                all == transactions@,
            decreases left@.len(),
        {
            let ghost before = left@;
            let ghost found = events@;
            let tx: Transaction = left.remove(0);
            assert(left@ =~= before.skip(1));
            match execute_transaction(tx) {
                Ok(Some(event)) => {
                    events.push(event);
                    proof {
                        match events_of(left@) {
                            Ok(rest) => {
                                assert(events@ + rest =~= found + (seq![event] + rest));
                            },
                            Err(_) => {},
                        }
                    }
                },
                Ok(None) => {},
                Err(e) => {
                    return Err(e);
                },
            }
        }
        assert(events@ + Seq::<ContractEvent>::empty() =~= events@);
        match self.process_vm_outputs(events, last_pivot, current_epoch) {
            Ok(output) => Ok(output),
            Err(e) => Err("Failed to execute block: ".to_owned().concat(e.as_str())),
        }
    }
}

} // verus!
