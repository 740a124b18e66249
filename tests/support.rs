use polled_futures::asyncio::{read_action, ReadAction};
use polled_futures::session::{Branch, Packet};
use polled_futures::tcp::{get_buffers, get_seq_nums, reassemble, sort_by_seqno};
use polled_futures::usecount::UseCounter;

#[test]
fn use_counter_counts_each_use() {
    let mut c = UseCounter::new(String::from("hi"));
    assert_eq!(c.count(), 0);
    assert_eq!(c.get().len(), 2);
    assert_eq!(c.get(), "hi");
    assert_eq!(c.count(), 2);
}

fn packets() -> Vec<Packet> {
    vec![
        Packet { buf: vec![1, 2], seqno: 3 },
        Packet { buf: vec![], seqno: 0 },
        Packet { buf: vec![9], seqno: 7 },
    ]
}

#[test]
fn seq_nums_in_packet_order() {
    assert_eq!(get_seq_nums(&packets()), vec![3, 0, 7]);
    assert!(get_seq_nums(&Vec::new()).is_empty());
}

#[test]
fn buffers_in_packet_order() {
    assert_eq!(get_buffers(&packets()), vec![vec![1, 2], vec![], vec![9]]);
}

#[test]
fn branch_holds_its_side() {
    let b: Branch<u8, &str> = Branch::Right("r");
    assert!(matches!(b, Branch::Right("r")));
}

#[test]
fn read_action_follows_worker_progress() {
    assert_eq!(read_action(false, false), ReadAction::StartWorker);
    assert_eq!(read_action(true, false), ReadAction::KeepWaiting);
    assert_eq!(read_action(true, true), ReadAction::Collect);
}

#[test]
fn use_counter_counts_mutable_use() {
    let mut c = UseCounter::new(vec![1u8]);
    c.get_mut().push(2);
    assert_eq!(c.get(), &vec![1, 2]);
    assert_eq!(c.count(), 2);
}

#[test]
fn reassemble_orders_buffers_by_seqno() {
    assert_eq!(reassemble(packets()), vec![vec![], vec![1, 2], vec![9]]);
    assert!(reassemble(Vec::new()).is_empty());
}

#[test]
fn sort_by_seqno_keeps_order_of_equal_numbers() {
    let ps = vec![
        Packet { buf: vec![1], seqno: 2 },
        Packet { buf: vec![2], seqno: 1 },
        Packet { buf: vec![3], seqno: 2 },
        Packet { buf: vec![4], seqno: 1 },
    ];
    let sorted = sort_by_seqno(ps);
    let bufs: Vec<Vec<u8>> = sorted.iter().map(|p| p.buf.clone()).collect();
    assert_eq!(bufs, vec![vec![2], vec![4], vec![1], vec![3]]);
}
