use paxy::contexts::{
    buffer_read, buffer_write, buffer_write_slice, copy_slice_to, unbuffer_read, unbuffer_write, write_slice,
    ConnectionContext, Dispatcher, NetworkThreadContext, WriteOutcome,
};
use paxy::indexed_vec::IndexedVec;
use paxy::transformation::TransformationResult;
use paxy::transformation::TransformationResult::{Canceled, Modified, Unchanged};

#[test]
fn combine_follows_the_table() {

    let cases = [
        (Unchanged, Unchanged, Unchanged, false),
        (Unchanged, Modified, Modified, false),
        (Unchanged, Canceled, Canceled, true),
        (Modified, Unchanged, Modified, false),
        (Modified, Modified, Modified, false),
        (Modified, Canceled, Canceled, true),
        (Canceled, Unchanged, Canceled, true),
        (Canceled, Modified, Canceled, true),
    ];
    for (a, b, c, stop) in cases {
        let mut r = a;
        assert_eq!(r.combine(b), stop);
        assert_eq!(r, c);
    }
}

#[test]
fn burst_of_accepts_spreads_round_robin() {
    let mut d = Dispatcher::new(4);
    let picks: Vec<usize> = (0..4).map(|_| d.pick()).collect();
    assert_eq!(picks, vec![0, 1, 2, 3]);
    assert_eq!(d.pick(), 0);
    let mut d = Dispatcher::new(8);
    let picks: Vec<usize> = (0..3).map(|_| d.pick()).collect();
    assert_eq!(picks, vec![0, 1, 2]);
}

#[test]
fn closing_either_half_removes_the_pair() {
    let mut t = NetworkThreadContext::new();
    let id = t.create_pair();
    assert_eq!(id, 0);
    let id2 = t.create_pair();
    assert_eq!(id2, 1);
    assert_eq!(t.connections.len(), 4);
    let player = t.take(1).unwrap();
    let mut other = t.take(player.token_other).unwrap();
    other.should_close = true;
    t.settle(player, Some(other));
    assert!(!t.connections.contains_key(&0));
    assert!(!t.connections.contains_key(&1));
    assert_eq!(t.connections.len(), 2);
    let mut player = t.take(2).unwrap();
    t.settle(ConnectionContext::new(2, 3, true), None);
    assert!(t.connections.contains_key(&2));
    player.should_close = true;
    let _ = t.take(2);
    t.settle(player, None);
    assert!(t.connections.is_empty());
}

#[test]
fn read_and_write_buffering() {
    let mut ctx = ConnectionContext::new(0, 1, true);
    let mut buf = IndexedVec::new();
    buf.put_slice(&[1, 2, 3]);
    buffer_read(&mut ctx, &buf);
    assert_eq!(ctx.read_buffering.as_slice(), &[1, 2, 3]);
    let mut into = IndexedVec::new();
    into.put_slice(&[0]);
    unbuffer_read(&mut ctx, &mut into);
    assert_eq!(into.as_slice(), &[0, 1, 2, 3]);
    assert_eq!(ctx.read_buffering.readable_bytes(), 0);

    buffer_write(&mut ctx, &buf);
    buffer_write_slice(&mut ctx, &[7, 8, 9], 1);
    assert_eq!(ctx.write_buffering.as_slice(), &[1, 2, 3, 8, 9]);
    let mut out = IndexedVec::new();
    unbuffer_write(&mut ctx, &mut out);
    assert_eq!(out.as_slice(), &[1, 2, 3, 8, 9]);
    assert_eq!(ctx.write_buffering.readable_bytes(), 0);

    let mut to = IndexedVec::new();
    copy_slice_to(&[4, 5], &mut to);
    write_slice(&mut to, &[6]);
    assert_eq!(to.as_slice(), &[4, 5, 6]);
}

#[test]
fn write_outcomes_update_the_connection() {
    let mut ctx = ConnectionContext::new(0, 1, true);
    ctx.record_write(&[1, 2, 3, 4], WriteOutcome::Done);
    assert!(ctx.is_writable);
    ctx.record_write(&[1, 2, 3, 4], WriteOutcome::WouldBlock(1));
    assert!(!ctx.is_writable);
    assert_eq!(ctx.write_buffering.as_slice(), &[2, 3, 4]);
    assert!(!ctx.should_close);
    ctx.record_write(&[5], WriteOutcome::Failed);
    assert!(ctx.should_close);
}
