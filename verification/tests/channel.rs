use pmpmc::pmpmc;
use std::cmp::Ordering;

#[test]
fn basic_functionality() {
    let (tx, rx) = pmpmc();
    assert_eq!(tx.send(3), ());
    assert_eq!(tx.send(1), ());
    assert_eq!(tx.send(2), ());
    assert_eq!(rx.recv_greatest(), Some(3));
    assert_eq!(rx.recv_greatest(), Some(2));
    assert_eq!(rx.recv_greatest(), Some(1));
}

struct TestStruct {
    matters: u32,
    _does_not_matter: u32,
}

impl PartialEq for TestStruct {
    fn eq(&self, other: &Self) -> bool {
        self.matters == other.matters
    }
}

impl Eq for TestStruct {}

impl PartialOrd for TestStruct {
    fn partial_cmp(&self, other: &Self) -> Option<Ordering> {
        self.matters.partial_cmp(&other.matters)
    }
}

impl Ord for TestStruct {
    fn cmp(&self, other: &Self) -> Ordering {
        self.matters.cmp(&other.matters)
    }
}

#[test]
fn works_for_struct_with_custom_ordering() {
    let first = TestStruct {
        matters: 1,
        _does_not_matter: 3,
    };
    let second = TestStruct {
        matters: 2,
        _does_not_matter: 1,
    };
    let third = TestStruct {
        matters: 3,
        _does_not_matter: 2,
    };

    let (tx, rx) = pmpmc();
    assert_eq!(tx.send(second), ());
    assert_eq!(tx.send(third), ());
    assert_eq!(tx.send(first), ());

    assert_eq!(rx.recv_greatest().unwrap().matters, 3);
    assert_eq!(rx.recv_greatest().unwrap().matters, 2);
    assert_eq!(rx.recv_greatest().unwrap().matters, 1);
}

#[test]
fn greatest_first_then_absent() {
    let (tx, rx) = pmpmc();
    tx.send(3);
    tx.send(1);
    tx.send(2);
    assert_eq!(rx.recv_greatest(), Some(3));
    assert_eq!(rx.recv_greatest(), Some(2));
    assert_eq!(rx.recv_greatest(), Some(1));
    assert_eq!(rx.recv_greatest(), None);
}

#[test]
fn least_first_then_absent() {
    let (tx, rx) = pmpmc();
    tx.send(3);
    tx.send(1);
    tx.send(2);
    assert_eq!(rx.recv_least(), Some(1));
    assert_eq!(rx.recv_least(), Some(2));
    assert_eq!(rx.recv_least(), Some(3));
    assert_eq!(rx.recv_least(), None);
}

#[test]
fn empty_channel_stays_empty() {
    let (tx, rx) = pmpmc::<i64>();
    assert_eq!(rx.recv_greatest(), None);
    assert_eq!(rx.recv_least(), None);
    assert_eq!(rx.recv_greatest(), None);
    assert_eq!(rx.recv_least(), None);
    tx.send(7);
    assert_eq!(rx.recv_least(), Some(7));
    assert_eq!(rx.recv_least(), None);
    assert_eq!(rx.recv_greatest(), None);
}

#[test]
fn cloned_handles_share_one_channel() {
    let (tx, rx) = pmpmc();
    let tx_new = tx.clone();
    let rx_new = rx.clone();
    tx_new.send(2);
    tx_new.send(1);
    tx_new.send(3);
    assert_eq!(rx_new.recv_greatest(), Some(3));
    assert_eq!(rx_new.recv_greatest(), Some(2));
    assert_eq!(rx_new.recv_greatest(), Some(1));
    assert_eq!(rx_new.recv_greatest(), None);
    assert_eq!(rx_new.recv_greatest(), None);
    assert_eq!(rx.recv_greatest(), None);
}

#[test]
fn three_senders_one_receiver() {
    let (tx, rx) = pmpmc();
    let tx1 = tx.clone();
    let tx2 = tx.clone();
    let tx3 = tx.clone();
    tx1.send(5);
    tx2.send(4);
    tx3.send(6);
    assert_eq!(rx.recv_least(), Some(4));
    assert_eq!(rx.recv_least(), Some(5));
    assert_eq!(rx.recv_least(), Some(6));
    assert_eq!(rx.recv_least(), None);
}

#[test]
fn three_receivers_take_turns() {
    let (tx, rx) = pmpmc();
    let rx1 = rx.clone();
    let rx2 = rx.clone();
    let rx3 = rx.clone();
    tx.send(5);
    tx.send(7);
    tx.send(6);
    assert_eq!(rx1.recv_greatest(), Some(7));
    assert_eq!(rx2.recv_greatest(), Some(6));
    assert_eq!(rx3.recv_greatest(), Some(5));
    assert_eq!(rx.recv_greatest(), None);
}

#[test]
fn two_receivers_split_the_items() {
    let (tx, rx) = pmpmc();
    let other = rx.clone();
    let sent: Vec<u32> = vec![9, 2, 7, 2, 5, 11, 0, 7];
    for &x in sent.iter() {
        tx.send(x);
    }
    let mut got_a: Vec<u32> = Vec::new();
    let mut got_b: Vec<u32> = Vec::new();
    loop {
        match rx.recv_greatest() {
            Some(x) => got_a.push(x),
            None => break,
        }
        match other.recv_least() {
            Some(x) => got_b.push(x),
            None => break,
        }
    }
    assert_eq!(got_a, vec![11, 9, 7, 7]);
    assert_eq!(got_b, vec![0, 2, 2, 5]);
    let mut all: Vec<u32> = Vec::new();
    all.extend(got_a.iter());
    all.extend(got_b.iter());
    all.sort();
    let mut expected = sent.clone();
    expected.sort();
    assert_eq!(all, expected);
}

#[test]
fn items_sent_equal_items_received() {
    let (tx, rx) = pmpmc();
    let senders = vec![tx.clone(), tx.clone(), tx.clone(), tx];
    let mut sent: Vec<u64> = Vec::new();
    for (n, s) in senders.iter().enumerate() {
        for m in 0..25u64 {
            let x = (m * 37 + (n as u64) * 11) % 50;
            s.send(x);
            sent.push(x);
        }
    }
    let mut got: Vec<u64> = Vec::new();
    while let Some(x) = rx.recv_greatest() {
        got.push(x);
    }
    assert_eq!(got.len(), 100);
    assert!(got.windows(2).all(|w| w[0] >= w[1]));
    sent.sort();
    sent.reverse();
    assert_eq!(got, sent);
}

#[test]
fn ties_leave_in_arrival_order() {
    let (tx, rx) = pmpmc();
    tx.send(TestStruct { matters: 2, _does_not_matter: 10 });
    tx.send(TestStruct { matters: 1, _does_not_matter: 20 });
    tx.send(TestStruct { matters: 2, _does_not_matter: 30 });
    tx.send(TestStruct { matters: 1, _does_not_matter: 40 });
    tx.send(TestStruct { matters: 2, _does_not_matter: 50 });
    let a = rx.recv_greatest().unwrap();
    assert_eq!((a.matters, a._does_not_matter), (2, 10));
    let b = rx.recv_least().unwrap();
    assert_eq!((b.matters, b._does_not_matter), (1, 20));
    let c = rx.recv_greatest().unwrap();
    assert_eq!((c.matters, c._does_not_matter), (2, 30));
    let d = rx.recv_greatest().unwrap();
    assert_eq!((d.matters, d._does_not_matter), (2, 50));
    let e = rx.recv_greatest().unwrap();
    assert_eq!((e.matters, e._does_not_matter), (1, 40));
    assert!(rx.recv_greatest().is_none());
    assert!(rx.recv_least().is_none());
}

fn needs_send_and_sync<H: Send + Sync>(_handle: &H) {}

#[test]
fn handles_can_cross_threads() {
    let (tx, rx) = pmpmc::<u32>();
    needs_send_and_sync(&tx);
    needs_send_and_sync(&rx);
    needs_send_and_sync(&tx.clone());
    needs_send_and_sync(&rx.clone());
    tx.send(1);
    assert_eq!(rx.recv_greatest(), Some(1));
}

#[test]
fn worker_takes_highest_priority_first() {
    let (tx, rx) = pmpmc();
    tx.send((2u8, "rebuild index"));
    tx.send((9u8, "page the operator"));
    tx.send((2u8, "rotate logs"));
    tx.send((5u8, "send report"));
    assert_eq!(rx.recv_greatest(), Some((9, "page the operator")));
    assert_eq!(rx.recv_greatest(), Some((5, "send report")));
    assert_eq!(rx.recv_greatest(), Some((2, "rotate logs")));
    assert_eq!(rx.recv_greatest(), Some((2, "rebuild index")));
    assert_eq!(rx.recv_greatest(), None);
}

#[test]
fn draining_least_ascends() {
    let (tx, rx) = pmpmc();
    let mut sent: Vec<i64> = Vec::new();
    let mut x: i64 = 7;
    for _ in 0..500 {
        x = (x * 75 + 74) % 65537;
        tx.send(x - 30000);
        sent.push(x - 30000);
    }
    let mut got: Vec<i64> = Vec::new();
    while let Some(item) = rx.recv_least() {
        got.push(item);
    }
    assert!(got.windows(2).all(|w| w[0] <= w[1]));
    sent.sort();
    assert_eq!(got, sent);
    assert_eq!(rx.recv_least(), None);
}

#[test]
fn sends_and_receives_interleaved() {
    let (tx, rx) = pmpmc();
    tx.send(4);
    tx.send(8);
    assert_eq!(rx.recv_greatest(), Some(8));
    tx.send(6);
    tx.send(1);
    assert_eq!(rx.recv_least(), Some(1));
    assert_eq!(rx.recv_greatest(), Some(6));
    tx.send(5);
    assert_eq!(rx.recv_least(), Some(4));
    assert_eq!(rx.recv_least(), Some(5));
    assert_eq!(rx.recv_least(), None);
    assert_eq!(rx.recv_greatest(), None);
}
