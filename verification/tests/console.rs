use std::sync::mpsc;

use unlock_all::console::{
    client_step, frame, handle, is_main_window, is_tail, job_names, publish, read_reply, read_result, register,
    runs_here, split_words, tail_line, Action, ClientStep, Jobs, ReadKind,
};

fn reply_of(a: Action) -> String {
    match a {
        Action::Reply(s) => s,
        Action::Read { .. } => panic!("a read"),
        Action::Run { .. } => panic!("a job"),
    }
}

fn jobs() -> Jobs<u8> {
    let mut j = Jobs::new();
    register(&mut j, "populate", 1u8);
    register(&mut j, "held", 2u8);
    register(&mut j, "skins", 3u8);
    register(&mut j, "held", 4u8);
    j
}

#[test]
fn words_split_at_any_white_space() {
    assert_eq!(split_words("  run\tskins \u{3000} a  "), vec!["run", "skins", "a"]);
    assert!(split_words(" \n ").is_empty());
}

#[test]
fn ping_and_empty_and_unknown() {
    let j = jobs();
    assert_eq!(reply_of(handle(&j, "ping")), "pong");
    assert_eq!(reply_of(handle(&j, "   ")), "");
    assert_eq!(reply_of(handle(&j, "pong")), "error: unknown command");
}

#[test]
fn reads_parse_their_address_and_length() {
    let j = jobs();
    match handle(&j, "read 0x1F 16") {
        Action::Read { addr, len, kind } => {
            assert_eq!((addr, len), (0x1f, 16));
            assert!(kind == ReadKind::Bytes);
        }
        _ => panic!("not a read"),
    }
    match handle(&j, "read 0x0xff") {
        Action::Read { addr, len, .. } => assert_eq!((addr, len), (0xff, 8)),
        _ => panic!("not a read"),
    }
    match handle(&j, "read ff nonsense") {
        Action::Read { len, .. } => assert_eq!(len, 8),
        _ => panic!("not a read"),
    }
    match handle(&j, "u32 +10 99") {
        Action::Read { addr, len, kind } => {
            assert_eq!((addr, len), (0x10, 4));
            assert!(kind == ReadKind::U32);
        }
        _ => panic!("not a read"),
    }
    match handle(&j, "u64 10") {
        Action::Read { len, kind, .. } => {
            assert_eq!(len, 8);
            assert!(kind == ReadKind::U64);
        }
        _ => panic!("not a read"),
    }
    match handle(&j, "read 10 65536") {
        Action::Read { len, .. } => assert_eq!(len, 65536),
        _ => panic!("not a read"),
    }
}

#[test]
fn read_errors() {
    let j = jobs();
    assert_eq!(reply_of(handle(&j, "read")), "error: address");
    assert_eq!(reply_of(handle(&j, "u32 0xg1")), "error: address");
    assert_eq!(reply_of(handle(&j, "u64 0x")), "error: address");
    assert_eq!(reply_of(handle(&j, "read 10 65537")), "error: length");
}

#[test]
fn jobs_and_run() {
    let j = jobs();
    assert_eq!(reply_of(handle(&j, "jobs")), "populate held skins held");
    assert_eq!(job_names(&Jobs::<u8>::new()), "");
    assert_eq!(reply_of(handle(&j, "run")), "error: job name");
    assert_eq!(reply_of(handle(&j, "run nothing")), "error: no such job");
    match handle(&j, "run held a b") {
        Action::Run { job, args } => {
            assert_eq!(job, 1);
            assert_eq!(*j.job(job), 2);
            assert_eq!(args, vec!["a", "b"]);
        }
        _ => panic!("not a job"),
    }
}

#[test]
fn read_replies() {
    assert_eq!(read_reply(ReadKind::Bytes, &[0x0a, 0xff, 0x00]), "0aff00");
    assert_eq!(read_reply(ReadKind::Bytes, &[]), "");
    assert_eq!(read_reply(ReadKind::U32, &[0x78, 0x56, 0x34, 0x12]), "0x12345678");
    assert_eq!(read_reply(ReadKind::U32, &[0, 0, 0, 0]), "0x0");
    assert_eq!(read_reply(ReadKind::U64, &[1, 0, 0, 0, 0, 0, 0, 0x80]), "0x8000000000000001");
    assert_eq!(format!("{:#x}", 0x8000000000000001u64), "0x8000000000000001");
}

#[test]
fn connection_lines() {
    assert!(is_tail("tail"));
    assert!(is_tail("  tail\r"));
    assert!(!is_tail("tails"));
    assert_eq!(frame("pong"), "pong\n.\n");
    assert!(runs_here(5, 5));
    assert!(!runs_here(0, 0));
    assert!(!runs_here(5, 6));
    assert!(is_main_window(3, 3, true, 1));
    assert!(!is_main_window(3, 3, true, 0));
    assert!(!is_main_window(3, 4, true, 9));
}

fn send_all(tails: &mut Vec<mpsc::Sender<String>>, line: &str) {
    let delivered: Vec<bool> = tails.iter().map(|tx| tx.send(line.to_string()).is_ok()).collect();
    publish(tails, &delivered);
}

#[test]
fn publish_drops_closed_tails() {
    let (tx1, rx1) = mpsc::channel::<String>();
    let (tx2, rx2) = mpsc::channel::<String>();
    let (tx3, rx3) = mpsc::channel::<String>();
    drop(rx2);
    let mut tails = vec![tx1, tx2, tx3];
    send_all(&mut tails, "hello");
    assert_eq!(tails.len(), 2);
    assert_eq!(rx1.recv().unwrap(), "hello");
    assert_eq!(rx3.recv().unwrap(), "hello");
    drop(rx1);
    send_all(&mut tails, "again");
    assert_eq!(tails.len(), 1);
    assert_eq!(rx3.recv().unwrap(), "again");
    assert!(rx3.try_recv().is_err());
}

#[test]
fn publish_keeps_delivered_items_in_order() {
    let mut v = vec![1, 2, 3, 4, 5];
    publish(&mut v, &vec![true, false, false, true, true]);
    assert_eq!(v, vec![1, 4, 5]);
    let mut none: Vec<u8> = vec![];
    publish(&mut none, &vec![]);
    assert!(none.is_empty());
    let mut gone = vec![7, 8];
    publish(&mut gone, &vec![false, false]);
    assert!(gone.is_empty());
}

#[test]
fn client_lines_tail_or_command() {
    let j = jobs();
    match client_step(&j, "  tail \r") {
        ClientStep::Tail { reply } => assert_eq!(reply, "tailing\n.\n"),
        ClientStep::Answer(_) => panic!("not a tail"),
    }
    match client_step(&j, "  ping  ") {
        ClientStep::Answer(a) => assert_eq!(reply_of(a), "pong"),
        ClientStep::Tail { .. } => panic!("a tail"),
    }
    match client_step(&j, "tail now") {
        ClientStep::Answer(a) => assert_eq!(reply_of(a), "error: unknown command"),
        ClientStep::Tail { .. } => panic!("a tail"),
    }
    match client_step(&j, " run held x ") {
        ClientStep::Answer(Action::Run { job, args }) => {
            assert_eq!(job, 1);
            assert_eq!(args, vec!["x".to_string()]);
        }
        _ => panic!("not a job"),
    }
}

#[test]
fn read_results_and_tail_lines() {
    assert_eq!(read_result(ReadKind::Bytes, None), "error: unreadable");
    assert_eq!(read_result(ReadKind::U32, None), "error: unreadable");
    assert_eq!(read_result(ReadKind::Bytes, Some(&[0xab, 0x01])), "ab01");
    assert_eq!(read_result(ReadKind::U32, Some(&[1, 0, 0, 0])), "0x1");
    assert_eq!(tail_line("hooked X"), "log hooked X\n");
    assert_eq!(tail_line(""), "log \n");
}
