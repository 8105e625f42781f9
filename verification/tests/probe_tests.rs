use iced_test_aya::channel::Channel;
use iced_test_aya::poller::{collect, subscription, wake, Message};
use iced_test_aya::probe::{
    get_args, iced_test_aya, read_user_str, record_of, try_iced_test_aya, Outcome, SysEnter,
    CONTINUE, EXECVE, PATH_TEXT_MAX,
};
use iced_test_aya::record::Data;
use iced_test_aya::state::State;

fn name(text: &[u8]) -> [u8; 16] {
    let mut out = [0u8; 16];
    out[..text.len()].copy_from_slice(text);
    out
}

fn exec(uid: u32, pid: u32, command: &[u8], filename: &[u8]) -> SysEnter {
    SysEnter {
        args: [0xffff_8000_0000_1000, 59],
        uid,
        pid,
        command: Some(name(command)),
        filename: Some(filename.to_vec()),
    }
}

#[test]
fn watched_call_is_execve() {
    assert_eq!(EXECVE, 59);
    assert_eq!(CONTINUE, 0);
    assert_eq!(PATH_TEXT_MAX, 63);
}

#[test]
fn args_are_the_two_words() {
    let ctx = exec(1, 2, b"sh", b"/bin/sh\0");
    assert_eq!(get_args(&ctx), &[0xffff_8000_0000_1000, 59]);
}

#[test]
fn bin_true_is_observed() {
    let mut events = Channel::new(12288);
    let ctx = exec(1000, 4321, b"true", b"/bin/true\0");
    assert_eq!(iced_test_aya(&ctx, &mut events), 0);
    assert!(events.is_ready());
    let batch = wake(&mut events);
    assert_eq!(batch.len(), 1);
    assert_eq!(batch[0].uid, 1000);
    assert_eq!(batch[0].pid, 4321);
    assert_eq!(batch[0].to_string(), "1000  4321, cmd: true, path: /bin/true");
    assert!(batch[0].path[9..].iter().all(|b| *b == 0));
    assert!(batch[0].command[4..].iter().all(|b| *b == 0));
    assert!(!events.is_ready());
    assert!(wake(&mut events).is_empty());
}

#[test]
fn invalid_argument_pointer_leaves_the_path_zero() {
    let mut events = Channel::new(12288);
    let mut ctx = exec(1000, 4321, b"true", b"");
    ctx.filename = None;
    assert_eq!(try_iced_test_aya(&ctx, &mut events), Outcome::Published { named: false });
    let batch = wake(&mut events);
    assert_eq!(batch.len(), 1);
    assert_eq!(batch[0].uid, 1000);
    assert_eq!(batch[0].pid, 4321);
    assert_eq!(batch[0].command, name(b"true"));
    assert_eq!(batch[0].path, [0u8; 64]);
    assert_eq!(batch[0].to_string(), "1000  4321, cmd: true, path: ");
}

#[test]
fn other_calls_are_ignored() {
    let mut events = Channel::new(12288);
    for number in [0u64, 1, 58, 60, 322, u64::MAX] {
        let mut ctx = exec(1, 2, b"cat", b"/bin/cat\0");
        ctx.args = [0, number];
        assert_eq!(try_iced_test_aya(&ctx, &mut events), Outcome::Ignored);
        assert_eq!(iced_test_aya(&ctx, &mut events), 0);
    }
    let mut ctx = exec(1, 2, b"cat", b"/bin/cat\0");
    ctx.args = [59, 0];
    assert_eq!(try_iced_test_aya(&ctx, &mut events), Outcome::Ignored);
    assert_eq!(events.free(), 12288);
    assert!(!events.is_ready());
    assert!(wake(&mut events).is_empty());
}

#[test]
fn event_is_dropped_when_less_than_one_record_is_free() {
    let mut events = Channel::new(88 + 87);
    let first = exec(1, 10, b"a", b"/a\0");
    let second = exec(2, 20, b"b", b"/b\0");
    assert_eq!(try_iced_test_aya(&first, &mut events), Outcome::Published { named: true });
    assert_eq!(events.free(), 87);
    assert_eq!(try_iced_test_aya(&second, &mut events), Outcome::Dropped);
    assert_eq!(iced_test_aya(&second, &mut events), 0);
    assert_eq!(events.free(), 87);
    let batch = wake(&mut events);
    assert_eq!(batch.len(), 1);
    assert_eq!(batch[0].pid, 10);
    assert_eq!(events.free(), 88 + 87);
    assert_eq!(try_iced_test_aya(&second, &mut events), Outcome::Published { named: true });
    let batch = wake(&mut events);
    assert_eq!(batch.len(), 1);
    assert_eq!(batch[0].pid, 20);
}

#[test]
fn two_hundred_events_against_room_for_one_hundred() {
    let mut events = Channel::new(100 * 88);
    let mut published = 0;
    let mut dropped = 0;
    for i in 0..200u32 {
        let path = format!("/usr/bin/tool-{i}\0");
        let ctx = exec(1000 + i, 5000 + i, b"tool", path.as_bytes());
        match try_iced_test_aya(&ctx, &mut events) {
            Outcome::Published { named } => {
                assert!(named);
                published += 1;
            }
            Outcome::Dropped => dropped += 1,
            Outcome::Ignored => panic!("an execve was ignored"),
        }
    }
    assert_eq!(published, 100);
    assert_eq!(dropped, 100);
    let batch = wake(&mut events);
    assert_eq!(batch.len(), 100);
    for (i, data) in batch.iter().enumerate() {
        let i = i as u32;
        assert_eq!(data.uid, 1000 + i);
        assert_eq!(data.pid, 5000 + i);
        assert_eq!(data.command, name(b"tool"));
        assert_eq!(
            data.to_string(),
            format!("{}  {}, cmd: tool, path: /usr/bin/tool-{i}", 1000 + i, 5000 + i)
        );
    }
    assert!(wake(&mut events).is_empty());
    assert_eq!(events.free(), 8800);
}

#[test]
fn long_path_is_cut_to_63_bytes_and_a_terminator() {
    let long: Vec<u8> = (0..200u32).map(|i| b'a' + (i % 26) as u8).collect();
    let mut text = long.clone();
    text.push(0);
    let data = record_of(&exec(1, 2, b"x", &text));
    assert_eq!(&data.path[..63], &long[..63]);
    assert_eq!(data.path[63], 0);
    let exact: Vec<u8> = long[..63].to_vec();
    let data = record_of(&exec(1, 2, b"x", &exact));
    assert_eq!(&data.path[..63], &exact[..]);
    assert_eq!(data.path[63], 0);
    let full: Vec<u8> = long[..64].to_vec();
    let data = record_of(&exec(1, 2, b"x", &full));
    assert_eq!(&data.path[..63], &full[..63]);
    assert_eq!(data.path[63], 0);
}

#[test]
fn short_path_is_followed_by_zeros() {
    let data = record_of(&exec(1, 2, b"ls", b"/bin/ls\0--color\0"));
    assert_eq!(&data.path[..7], b"/bin/ls");
    assert!(data.path[7..].iter().all(|b| *b == 0));
    let data = record_of(&exec(1, 2, b"ls", b"/bin/ls"));
    assert_eq!(&data.path[..7], b"/bin/ls");
    assert!(data.path[7..].iter().all(|b| *b == 0));
    let data = record_of(&exec(1, 2, b"ls", b"\0/bin/ls"));
    assert_eq!(data.path, [0u8; 64]);
    let data = record_of(&exec(1, 2, b"ls", b""));
    assert_eq!(data.path, [0u8; 64]);
}

#[test]
fn bounded_copy_keeps_what_lies_behind_the_terminator() {
    let mut dest = [0xaau8; 64];
    assert_eq!(read_user_str(&mut dest, b"abc\0def"), 3);
    assert_eq!(&dest[..4], b"abc\0");
    assert!(dest[4..].iter().all(|b| *b == 0xaa));
    let mut dest = [0xaau8; 64];
    assert_eq!(read_user_str(&mut dest, &[b'z'; 100]), 63);
    assert_eq!(&dest[..63], &[b'z'; 63]);
    assert_eq!(dest[63], 0);
    let mut dest = [0xaau8; 64];
    assert_eq!(read_user_str(&mut dest, b""), 0);
    assert_eq!(dest[0], 0);
    assert!(dest[1..].iter().all(|b| *b == 0xaa));
}

#[test]
fn unknown_command_is_err_and_spaces() {
    let mut ctx = exec(3, 4, b"", b"/bin/true\0");
    ctx.command = None;
    let data = record_of(&ctx);
    assert_eq!(&data.command, b"ERR             ");
    assert_eq!(data.to_string(), "3  4, cmd: ERR             , path: /bin/true");
}

#[test]
fn record_takes_identity_from_the_call() {
    let data = record_of(&exec(u32::MAX, 0, b"0123456789abcdef", b"/x\0"));
    assert_eq!(data.uid, u32::MAX);
    assert_eq!(data.pid, 0);
    assert_eq!(&data.command, b"0123456789abcdef");
}

#[test]
fn record_behind_a_slot_in_the_making_waits_for_it() {
    let mut events = Channel::new(1000);
    let slow = events.reserve(88).expect("room");
    let ctx = exec(1, 2, b"true", b"/bin/true\0");
    assert_eq!(try_iced_test_aya(&ctx, &mut events), Outcome::Published { named: true });
    assert!(wake(&mut events).is_empty());
    let other = Data { uid: 9, pid: 9, command: [0; 16], path: [0; 64] };
    assert!(events.write(&slow, 0, &other.encode()));
    assert!(events.submit(slow));
    let batch = wake(&mut events);
    assert_eq!(batch.len(), 2);
    assert_eq!(batch[0].uid, 9);
    assert_eq!(batch[1].uid, 1);
}

#[test]
fn span_of_another_size_is_skipped() {
    let mut events = Channel::new(1000);
    let short = events.reserve(87).expect("room");
    assert!(events.submit(short));
    let ctx = exec(5, 6, b"id", b"/usr/bin/id\0");
    assert_eq!(iced_test_aya(&ctx, &mut events), 0);
    let long = events.reserve(89).expect("room");
    assert!(events.submit(long));
    let double = events.reserve(176).expect("room");
    assert!(events.submit(double));
    let batch = wake(&mut events);
    assert_eq!(batch.len(), 1);
    assert_eq!(batch[0].uid, 5);
    assert_eq!(events.free(), 1000);
}

#[test]
fn collect_decodes_in_order_and_skips() {
    let a = Data { uid: 1, pid: 11, command: name(b"a"), path: [0; 64] };
    let b = Data { uid: 2, pid: 22, command: name(b"b"), path: [1; 64] };
    let spans = vec![
        a.encode().to_vec(),
        vec![0u8; 44],
        Vec::new(),
        b.encode().to_vec(),
        vec![0u8; 89],
        a.encode().to_vec(),
    ];
    let events = collect(&spans);
    assert_eq!(events.len(), 3);
    assert_eq!(events[0].pid, 11);
    assert_eq!(events[1].pid, 22);
    assert_eq!(events[1].path, [1u8; 64]);
    assert_eq!(events[2].pid, 11);
    assert!(collect(&Vec::new()).is_empty());
}

#[test]
fn subscription_without_a_channel_ticks() {
    let (message, poll) = subscription(None);
    assert!(matches!(message, Message::Tick));
    assert!(poll.is_none());
}

#[test]
fn subscription_yields_one_batch_per_wake_up() {
    let mut events = Channel::new(12288);
    for i in 0..3u32 {
        let ctx = exec(i, i, b"true", b"/bin/true\0");
        assert_eq!(iced_test_aya(&ctx, &mut events), 0);
    }
    let (message, poll) = subscription(Some(events));
    let batch = match message {
        Message::Events(batch) => batch,
        Message::Tick => panic!("a channel was there"),
    };
    assert_eq!(batch.len(), 3);
    assert_eq!(batch[0].uid, 0);
    assert_eq!(batch[2].uid, 2);
    let events = poll.expect("the channel comes back");
    assert!(!events.is_ready());
    assert_eq!(events.free(), 12288);
    let (message, poll) = subscription(Some(events));
    match message {
        Message::Events(batch) => assert!(batch.is_empty()),
        Message::Tick => panic!("a channel was there"),
    }
    assert!(poll.is_some());
}

#[test]
fn state_collects_batches_in_order() {
    let mut state = State::new();
    assert_eq!(state.n_events(), 0);
    assert!(state.events().is_empty());
    assert_eq!(state.lines(), vec!["Events: 0".to_string()]);
    state.update(Message::Tick);
    assert_eq!(state.n_events(), 0);
    let a = record_of(&exec(1, 11, b"a", b"/a\0"));
    let b = record_of(&exec(2, 22, b"b", b"/b\0"));
    let c = record_of(&exec(3, 33, b"c", b"/c\0"));
    state.update(Message::Events(vec![a, b]));
    assert_eq!(state.n_events(), 2);
    state.update(Message::Events(Vec::new()));
    state.update(Message::Tick);
    state.update(Message::Events(vec![c]));
    assert_eq!(state.n_events(), 3);
    let pids: Vec<u32> = state.events().iter().map(|d| d.pid).collect();
    assert_eq!(pids, vec![11, 22, 33]);
    assert_eq!(
        state.lines(),
        vec![
            "Events: 3".to_string(),
            "Event: 3  33, cmd: c, path: /c".to_string(),
            "Event: 2  22, cmd: b, path: /b".to_string(),
            "Event: 1  11, cmd: a, path: /a".to_string(),
        ]
    );
}
