use shred_decoder::recovery::{
    job_result, next_worker_action, run_recovery, send_result, RecoveryJob, RecoveryPool,
    SendOutcome, WorkerAction, WorkerEvent,
};
use shred_decoder::shred::{
    CodingHeader, CommonHeader, Shred, ShredCode, ShredVariant,
};

fn shred(index: u32) -> Shred {
    Shred::ShredCode(ShredCode {
        common_header: CommonHeader {
            signature: [0; 64],
            shred_variant: ShredVariant::LegacyCode,
            slot: 1,
            index,
            version: 0,
            fec_set_index: 0,
        },
        coding_header: CodingHeader {
            num_data_shreds: 1,
            num_coding_shreds: 1,
            position: 0,
        },
        payload: vec![],
    })
}

fn job(fec_set_index: u32) -> RecoveryJob {
    RecoveryJob {
        slot: 3,
        fec_set_index,
        shreds: vec![shred(9)],
    }
}

#[test]
fn queues_hold_four_messages_for_each_worker() {
    for (asked, workers, depth) in [(0, 1, 4), (1, 1, 4), (2, 2, 8), (3, 3, 12), (8, 8, 32)] {
        let (pool, channels, count) = RecoveryPool::new(asked);
        assert_eq!(pool.result_receiver().capacity(), Some(depth));
        assert_eq!(count, workers);
        assert_eq!(channels.job_rx.capacity(), Some(depth));
        assert_eq!(channels.result_tx.capacity(), Some(depth));
    }
}

#[test]
fn jobs_go_to_the_workers_in_order() {
    let (mut pool, channels, _) = RecoveryPool::new(1);
    assert!(pool.try_dispatch(job(4)).is_ok());
    assert!(pool.try_dispatch(job(5)).is_ok());
    let first = channels.job_rx.recv().unwrap();
    assert_eq!((first.slot, first.fec_set_index), (3, 4));
    assert_eq!(first.shreds[0].index(), 9);
    assert_eq!(channels.job_rx.recv().unwrap().fec_set_index, 5);
}

#[test]
fn a_job_without_room_comes_back() {
    let (mut pool, _channels, _) = RecoveryPool::new(1);
    for i in 0..4 {
        assert!(pool.try_dispatch(job(i)).is_ok());
    }
    let back = pool.try_dispatch(job(4)).unwrap_err();
    assert_eq!((back.slot, back.fec_set_index), (3, 4));
    assert_eq!(back.shreds[0].index(), 9);
}

#[test]
fn a_job_without_workers_comes_back() {
    let (mut pool, channels, _) = RecoveryPool::new(1);
    drop(channels);
    assert_eq!(pool.try_dispatch(job(2)).unwrap_err().fec_set_index, 2);
}

#[test]
fn results_come_from_the_workers() {
    let (mut pool, channels, _) = RecoveryPool::new(1);
    assert!(pool.try_recv().is_none());
    channels.result_tx.send(job_result(3, 4, Ok(vec![Ok(shred(1))]))).unwrap();
    channels.result_tx.send(job_result(3, 5, Err("failed".to_string()))).unwrap();
    let first = pool.try_recv().unwrap();
    assert_eq!((first.slot, first.fec_set_index, first.recovered.len()), (3, 4, 1));
    let second = pool.result_receiver().recv().unwrap();
    assert_eq!((second.slot, second.fec_set_index, second.recovered.len()), (3, 5, 0));
}

#[test]
fn unsound_shreds_are_left_out() {
    let items = vec![
        Ok(shred(1)),
        Err("bad root".to_string()),
        Ok(shred(2)),
        Err("bad root".to_string()),
    ];
    let kept: Vec<u32> = run_recovery(Ok(items)).iter().map(|s| s.index()).collect();
    assert_eq!(kept, vec![1, 2]);
    assert!(run_recovery(Ok(vec![])).is_empty());
    assert!(run_recovery(Err("too few".to_string())).is_empty());
}

#[test]
fn workers_work_until_a_queue_closes_or_they_are_told_to_stop() {
    assert!(matches!(next_worker_action(WorkerEvent::Ready), WorkerAction::AwaitJob));
    assert!(matches!(next_worker_action(WorkerEvent::TimedOut), WorkerAction::CheckExit));
    assert!(matches!(next_worker_action(WorkerEvent::ResultSent), WorkerAction::CheckExit));
    assert!(matches!(next_worker_action(WorkerEvent::ExitRequested), WorkerAction::Stop));
    assert!(matches!(next_worker_action(WorkerEvent::JobsClosed), WorkerAction::Stop));
    assert!(matches!(next_worker_action(WorkerEvent::ResultsClosed), WorkerAction::Stop));
    match next_worker_action(WorkerEvent::Job(job(6))) {
        WorkerAction::Recover(job) => assert_eq!(job.fec_set_index, 6),
        _ => panic!("the job is to be done"),
    }
}

#[test]
fn only_a_message_that_was_sent_does_not_come_back() {
    assert!(send_result(SendOutcome::Sent).is_ok());
    assert_eq!(send_result(SendOutcome::Full(job(4))).unwrap_err().fec_set_index, 4);
    assert_eq!(send_result(SendOutcome::Disconnected(job(5))).unwrap_err().fec_set_index, 5);
}
