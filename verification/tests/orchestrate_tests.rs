use mediafetch::dedup::Deduplicator;
use mediafetch::model::{Attachment, AttachmentOutcome, DownloadTask, Message};
use mediafetch::orchestrate::{destination_for, plan_tasks, run_task, Orchestrator, TaskRun};

fn att(id: u64, name: &[u8]) -> Attachment {
    Attachment { id, filename: name.to_vec() }
}

fn msg(id: u64, attachments: Vec<Attachment>) -> Message {
    Message { id, attachments }
}

#[test]
fn empty_channel_spawns_nothing() {
    let mut o = Orchestrator::new();
    let msgs = vec![msg(1, vec![]), msg(2, vec![]), msg(3, vec![])];
    let tasks = plan_tasks(&mut o, msgs);
    assert_eq!(tasks.len(), 0);
    o.history_exhausted();
    assert!(o.is_complete());
    let s = o.finish();
    assert_eq!(s.tasks, 0);
    assert_eq!(s.saved, 0);
    assert_eq!(s.failed, 0);
    assert_eq!(s.page_errors, 0);
}

#[test]
fn one_task_per_qualifying_message() {
    let mut o = Orchestrator::new();
    let msgs = vec![
        msg(1, vec![]),
        msg(2, vec![att(21, b"a.png")]),
        msg(3, vec![]),
        msg(4, vec![att(41, b"b.png"), att(42, b"c.png")]),
    ];
    let tasks = plan_tasks(&mut o, msgs);
    assert_eq!(tasks.len(), 2);
    assert_eq!(tasks[0].message_id, 2);
    assert_eq!(tasks[0].attachments.len(), 1);
    assert_eq!(tasks[1].message_id, 4);
    assert_eq!(tasks[1].attachments.len(), 2);
}

#[test]
fn every_attachment_attempted() {
    let t = DownloadTask {
        message_id: 7,
        attachments: vec![att(1, b"a"), att(2, b"b"), att(3, b"c")],
    };
    let outcomes = vec![
        AttachmentOutcome::Saved,
        AttachmentOutcome::FetchFailed,
        AttachmentOutcome::Saved,
    ];
    let r = run_task(t, &outcomes);
    assert_eq!(r.saved, 2);
    assert_eq!(r.failed, 1);
}

#[test]
fn failure_does_not_stop_siblings() {
    let t = DownloadTask { message_id: 7, attachments: vec![att(1, b"a"), att(2, b"b")] };
    let mut run = TaskRun::start(t);
    assert!(run.pending());
    let (id, name) = run.current();
    assert_eq!(id, 1);
    assert_eq!(name, b"a".to_vec());
    run.record(AttachmentOutcome::FetchFailed);
    // The first attachment failed; the second is still attempted.
    assert!(run.pending());
    let (id, name) = run.current();
    assert_eq!(id, 2);
    assert_eq!(name, b"b".to_vec());
    run.record(AttachmentOutcome::Saved);
    assert!(!run.pending());
    let r = run.report();
    assert_eq!(r.saved, 1);
    assert_eq!(r.failed, 1);
}

#[test]
fn write_failure_counts_as_failed() {
    let t = DownloadTask { message_id: 9, attachments: vec![att(1, b"a")] };
    let r = run_task(t, &vec![AttachmentOutcome::WriteFailed]);
    assert_eq!(r.saved, 0);
    assert_eq!(r.failed, 1);
}

#[test]
fn completion_only_after_all_tasks() {
    let mut o = Orchestrator::new();
    let t1 = o.observe(msg(1, vec![att(11, b"a.png")]));
    let t2 = o.observe(msg(2, vec![att(21, b"b.png")]));
    assert!(t1.is_some());
    assert!(t2.is_some());
    assert!(!o.is_complete());
    o.history_exhausted();
    assert!(!o.is_complete());
    o.task_finished(run_task(t1.unwrap(), &vec![AttachmentOutcome::Saved]));
    assert!(!o.is_complete());
    o.task_finished(run_task(t2.unwrap(), &vec![AttachmentOutcome::FetchFailed]));
    assert!(o.is_complete());
    let s = o.finish();
    assert_eq!(s.tasks, 2);
    assert_eq!(s.saved, 1);
    assert_eq!(s.failed, 1);
}

#[test]
fn page_errors_do_not_stop_the_walk() {
    let mut o = Orchestrator::new();
    o.observe_page_error();
    let t = o.observe(msg(1, vec![att(11, b"a.png")]));
    o.observe_page_error();
    o.history_exhausted();
    o.task_finished(run_task(t.unwrap(), &vec![AttachmentOutcome::Saved]));
    assert!(o.is_complete());
    let s = o.finish();
    assert_eq!(s.tasks, 1);
    assert_eq!(s.saved, 1);
    assert_eq!(s.page_errors, 2);
}

#[test]
fn three_message_channel_yields_three_files() {
    // Message A has no attachments, message B has two attachments that
    // share one original filename, message C has one attachment.
    let mut o = Orchestrator::new();
    let msgs = vec![
        msg(1, vec![]),
        msg(2, vec![att(11, b"img1.png"), att(12, b"img1.png")]),
        msg(3, vec![att(13, b"pic.jpg")]),
    ];
    let tasks = plan_tasks(&mut o, msgs);
    assert_eq!(tasks.len(), 2);

    let mut paths = Deduplicator::new();
    let mut files: Vec<Vec<u8>> = Vec::new();
    for task in tasks {
        let mut run = TaskRun::start(task);
        while run.pending() {
            let (id, name) = run.current();
            files.push(destination_for(&mut paths, id, &name));
            run.record(AttachmentOutcome::Saved);
        }
        o.task_finished(run.report());
    }
    o.history_exhausted();
    assert!(o.is_complete());

    assert_eq!(
        files,
        vec![b"11_img1.png".to_vec(), b"12_img1.png".to_vec(), b"13_pic.jpg".to_vec()]
    );
    for i in 0..files.len() {
        for j in 0..files.len() {
            if i != j {
                assert_ne!(files[i], files[j]);
            }
        }
    }

    let s = o.finish();
    assert_eq!(s.tasks, 2);
    assert_eq!(s.saved, 3);
    assert_eq!(s.failed, 0);
}
