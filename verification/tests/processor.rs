//! Tests of the re-sequencing pipeline: scenarios fed through the
//! processor, out-of-order arrival, worker-count independence, and the
//! ordering-gap failure.

use banking_exercise::models::account::{Account, AccountId};
use banking_exercise::models::transaction::{Transaction, TransactionId, TransactionType};
use banking_exercise::processor::{
    OrderedTransaction, ProcessorError, Resequencer, TransactionProcessor, Worker,
};

fn txn(id: u32, client: u16, txn_type: TransactionType) -> Transaction {
    Transaction::new(TransactionId::from(id), AccountId::from(client), txn_type)
}

fn run(num_workers: usize, txns: &[(u64, Transaction)]) -> Vec<Account> {
    let mut processor = TransactionProcessor::new(num_workers);
    for (order, t) in txns {
        processor.process_ordered_txn(OrderedTransaction::new(*order, *t));
    }
    processor.shutdown().expect("the stream has no gaps")
}

fn snapshot(accounts: &[Account]) -> Vec<(u16, i128, i128, i128, bool)> {
    let mut rows: Vec<(u16, i128, i128, i128, bool)> = accounts
        .iter()
        .map(|a| {
            (
                u16::from(a.id()),
                a.available(),
                a.held(),
                a.total(),
                a.locked(),
            )
        })
        .collect();
    rows.sort();
    rows
}

#[test]
fn empty_input_yields_no_accounts() {
    let accounts = run(3, &[]);
    assert!(accounts.is_empty());
}

#[test]
fn single_deposit() {
    let accounts = run(1, &[(0, txn(1, 1, TransactionType::Deposit { amount: 10_0000 }))]);
    assert_eq!(snapshot(&accounts), vec![(1, 10_0000, 0, 10_0000, false)]);
}

#[test]
fn withdrawal_exceeding_funds() {
    let accounts = run(
        1,
        &[
            (0, txn(1, 1, TransactionType::Deposit { amount: 5_0000 })),
            (1, txn(2, 1, TransactionType::Withdrawal { amount: 7_5000 })),
        ],
    );
    assert_eq!(snapshot(&accounts), vec![(1, 5_0000, 0, 5_0000, false)]);
}

#[test]
fn dispute_resolve_cycle() {
    let accounts = run(
        1,
        &[
            (0, txn(1, 1, TransactionType::Deposit { amount: 50_0000 })),
            (1, txn(1, 1, TransactionType::Dispute)),
            (2, txn(1, 1, TransactionType::Resolve)),
        ],
    );
    assert_eq!(snapshot(&accounts), vec![(1, 50_0000, 0, 50_0000, false)]);
}

#[test]
fn dispute_window_holds_funds() {
    let accounts = run(
        1,
        &[
            (0, txn(1, 1, TransactionType::Deposit { amount: 50_0000 })),
            (1, txn(1, 1, TransactionType::Dispute)),
        ],
    );
    assert_eq!(snapshot(&accounts), vec![(1, 0, 50_0000, 50_0000, false)]);
}

#[test]
fn dispute_chargeback_locks_account() {
    let accounts = run(
        1,
        &[
            (0, txn(1, 1, TransactionType::Deposit { amount: 100_0000 })),
            (1, txn(1, 1, TransactionType::Dispute)),
            (2, txn(1, 1, TransactionType::Chargeback)),
            (3, txn(2, 1, TransactionType::Deposit { amount: 25_0000 })),
        ],
    );
    assert_eq!(snapshot(&accounts), vec![(1, 0, 0, 0, true)]);
}

#[test]
fn multi_client_partitioning() {
    let input = [
        (0, txn(1, 1, TransactionType::Deposit { amount: 10_0000 })),
        (1, txn(2, 2, TransactionType::Deposit { amount: 20_0000 })),
        (2, txn(3, 1, TransactionType::Withdrawal { amount: 3_0000 })),
    ];
    let accounts = run(2, &input);
    assert_eq!(
        snapshot(&accounts),
        vec![(1, 7_0000, 0, 7_0000, false), (2, 20_0000, 0, 20_0000, false)]
    );
}

#[test]
fn output_is_independent_of_worker_count() {
    let input = [
        (0, txn(1, 1, TransactionType::Deposit { amount: 10_0000 })),
        (1, txn(2, 2, TransactionType::Deposit { amount: 20_0000 })),
        (2, txn(3, 3, TransactionType::Deposit { amount: 5_0000 })),
        (3, txn(4, 1, TransactionType::Withdrawal { amount: 3_0000 })),
        (4, txn(2, 2, TransactionType::Dispute)),
        (5, txn(2, 2, TransactionType::Chargeback)),
    ];
    let reference = snapshot(&run(1, &input));
    for n in 2..=5usize {
        assert_eq!(
            snapshot(&run(n, &input)),
            reference,
            "the final accounts do not depend on the worker count"
        );
    }
}

#[test]
fn resequencing_out_of_order_arrival() {
    let in_order = [
        (0, txn(1, 1, TransactionType::Deposit { amount: 50_0000 })),
        (1, txn(1, 1, TransactionType::Dispute)),
        (2, txn(1, 1, TransactionType::Resolve)),
        (3, txn(2, 1, TransactionType::Withdrawal { amount: 20_0000 })),
    ];
    let reference = snapshot(&run(1, &in_order));
    // every arrival order of the same tagged records gives the same state
    let permutations: [[usize; 4]; 5] = [
        [3, 2, 1, 0],
        [1, 0, 3, 2],
        [2, 0, 3, 1],
        [0, 2, 1, 3],
        [3, 0, 1, 2],
    ];
    for perm in permutations {
        let shuffled: Vec<(u64, Transaction)> = perm.iter().map(|&i| in_order[i]).collect();
        assert_eq!(
            snapshot(&run(2, &shuffled)),
            reference,
            "arrival order must not matter while order tags are kept"
        );
    }
}

#[test]
fn gap_in_stream_positions_fails_shutdown() {
    let mut processor = TransactionProcessor::new(2);
    processor.process_ordered_txn(OrderedTransaction::new(
        0,
        txn(1, 1, TransactionType::Deposit { amount: 1_0000 }),
    ));
    // position 1 never arrives
    processor.process_ordered_txn(OrderedTransaction::new(
        2,
        txn(2, 1, TransactionType::Deposit { amount: 2_0000 }),
    ));
    match processor.shutdown() {
        Err(ProcessorError::OrderingGap { next_expected }) => assert_eq!(next_expected, 1),
        Ok(_) => panic!("a gapped stream must not shut down cleanly"),
    }
}

#[test]
fn resequencer_emits_in_order_batches() {
    let mut reseq = Resequencer::new();
    let t0 = txn(1, 1, TransactionType::Deposit { amount: 1_0000 });
    let t1 = txn(2, 1, TransactionType::Deposit { amount: 2_0000 });
    let t2 = txn(3, 1, TransactionType::Deposit { amount: 3_0000 });

    assert_eq!(reseq.submit(OrderedTransaction::new(2, t2)).len(), 0);
    assert_eq!(reseq.submit(OrderedTransaction::new(1, t1)).len(), 0);
    assert_eq!(reseq.outstanding(), 2);
    assert_eq!(reseq.position(), 0);

    let batch = reseq.submit(OrderedTransaction::new(0, t0));
    assert_eq!(batch.len(), 3);
    assert_eq!(batch[0].id(), t0.id());
    assert_eq!(batch[1].id(), t1.id());
    assert_eq!(batch[2].id(), t2.id());
    assert_eq!(reseq.outstanding(), 0);
    assert_eq!(reseq.position(), 3);
}

#[test]
fn worker_routes_by_client_and_reports_rejections() {
    let mut worker = Worker::new();
    worker
        .process_txn(txn(1, 5, TransactionType::Deposit { amount: 9_0000 }))
        .expect("deposit should apply");
    worker
        .process_txn(txn(2, 6, TransactionType::Deposit { amount: 4_0000 }))
        .expect("deposit should apply");
    assert!(
        worker
            .process_txn(txn(3, 5, TransactionType::Withdrawal { amount: 10_0000 }))
            .is_err(),
        "overdraft is rejected"
    );
    let accounts = worker.stop();
    assert_eq!(
        snapshot(&accounts),
        vec![(5, 9_0000, 0, 9_0000, false), (6, 4_0000, 0, 4_0000, false)]
    );
}
