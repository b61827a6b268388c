use bzip2_pipeline::block::Tcontent;
use bzip2_pipeline::reorder::Reorder;
use bzip2_pipeline::stage::OrderedWriter;

fn finished(order: u64, result: &[u8]) -> Tcontent {
    let mut t = Tcontent::new(order, &[order as u8], result.len() + 3);
    t.buffer_output[..result.len()].copy_from_slice(result);
    t.output_size = result.len() as u32;
    t
}

fn orders(v: &[Tcontent]) -> Vec<u64> {
    v.iter().map(|t| t.order).collect()
}

#[test]
fn new_block_has_zeroed_output_and_copied_input() {
    let t = Tcontent::new(7, &[1, 2, 3], 5);
    assert_eq!(t.order, 7);
    assert_eq!(t.buffer_input, vec![1, 2, 3]);
    assert_eq!(t.buffer_output, vec![0, 0, 0, 0, 0]);
    assert_eq!(t.output_size, 0);
    assert_eq!(t.payload(), &[] as &[u8]);
}

#[test]
fn payload_is_the_written_prefix() {
    let t = finished(2, &[9, 8, 7]);
    assert_eq!(t.buffer_output.len(), 6);
    assert_eq!(t.payload(), &[9, 8, 7]);
}

#[test]
fn remove_returns_what_was_enqueued() {
    let mut r = Reorder::new();
    r.enqueue(finished(3, &[3]));
    r.enqueue(finished(5, &[5]));
    let got = r.remove(3).expect("block 3 is stored");
    assert_eq!(got.order, 3);
    assert_eq!(got.payload(), &[3]);
    assert!(r.remove(3).is_none());
    assert!(r.remove(4).is_none());
    assert_eq!(r.remove(5).map(|t| t.order), Some(5));
}

#[test]
fn enqueue_replaces_a_block_of_the_same_order() {
    let mut r = Reorder::new();
    r.enqueue(finished(1, &[1]));
    r.enqueue(finished(1, &[2, 2]));
    assert_eq!(r.remove(1).unwrap().payload(), &[2, 2]);
    assert!(r.remove(1).is_none());
}

#[test]
fn remove_from_empty_buffer_is_none() {
    let mut r = Reorder::new();
    assert!(r.remove(0).is_none());
}

#[test]
fn block_in_turn_leaves_at_once() {
    let mut w = OrderedWriter::new();
    assert_eq!(w.expected(), 0);
    let out = w.accept(finished(0, &[10]));
    assert_eq!(orders(&out), vec![0]);
    assert_eq!(w.expected(), 1);
}

#[test]
fn early_block_waits_for_its_turn() {
    let mut w = OrderedWriter::new();
    assert!(w.accept(finished(2, &[2])).is_empty());
    assert!(w.accept(finished(1, &[1])).is_empty());
    assert_eq!(w.expected(), 0);
    let out = w.accept(finished(0, &[0]));
    assert_eq!(orders(&out), vec![0, 1, 2]);
    assert_eq!(w.expected(), 3);
}

#[test]
fn run_stops_at_the_first_gap() {
    let mut w = OrderedWriter::new();
    assert!(w.accept(finished(1, &[1])).is_empty());
    assert!(w.accept(finished(3, &[3])).is_empty());
    let out = w.accept(finished(0, &[0]));
    assert_eq!(orders(&out), vec![0, 1]);
    assert_eq!(w.expected(), 2);
    let out = w.accept(finished(2, &[2]));
    assert_eq!(orders(&out), vec![2, 3]);
    assert_eq!(w.expected(), 4);
}

#[test]
fn any_arrival_order_gives_stream_order() {
    let arrival = [4u64, 1, 0, 6, 3, 2, 5];
    let mut w = OrderedWriter::new();
    let mut written: Vec<Tcontent> = Vec::new();
    for &o in arrival.iter() {
        written.extend(w.accept(finished(o, &[o as u8 * 10, o as u8])));
    }
    assert_eq!(orders(&written), vec![0, 1, 2, 3, 4, 5, 6]);
    for (k, t) in written.iter().enumerate() {
        assert_eq!(t.payload(), &[k as u8 * 10, k as u8]);
    }
    assert_eq!(w.expected(), 7);
}

#[test]
fn late_duplicate_is_held_and_never_written() {
    let mut w = OrderedWriter::new();
    assert_eq!(orders(&w.accept(finished(0, &[0]))), vec![0]);
    assert!(w.accept(finished(0, &[0])).is_empty());
    assert_eq!(w.expected(), 1);
    assert_eq!(orders(&w.accept(finished(1, &[1]))), vec![1]);
}

#[test]
fn contains_reports_stored_orders() {
    let mut r = Reorder::new();
    assert!(!r.contains(4));
    r.enqueue(finished(4, &[4]));
    assert!(r.contains(4));
    assert!(!r.contains(5));
    let t = r.remove(4).unwrap();
    assert_eq!(t.order, 4);
    assert!(!r.contains(4));
}

#[test]
fn can_accept_everything_short_of_the_last_position() {
    let mut w = OrderedWriter::new();
    assert!(w.can_accept(&finished(0, &[0])));
    assert!(w.can_accept(&finished(u64::MAX, &[0])));
    assert!(w.accept(finished(u64::MAX, &[0])).is_empty());
    assert!(w.can_accept(&finished(0, &[0])));
    assert_eq!(orders(&w.accept(finished(0, &[0]))), vec![0]);
}
