use orecchiette_fpv_analog::frame_history::{FieldMeta, FrameHistory};

fn meta_for(stamp: u64) -> FieldMeta {
    FieldMeta {
        timestamp_us: stamp,
        field_parity: (stamp & 1) as u8,
        sync_quality: 1000,
        mean_amplitude: 500,
    }
}

#[test]
fn push_and_index_roundtrip() {
    let mut h = FrameHistory::new(3, 4);
    h.push(vec![1.0, 2.0, 3.0, 4.0], meta_for(10));
    h.push(vec![5.0, 6.0, 7.0, 8.0], meta_for(20));
    assert_eq!(h.len(), 2);
    assert_eq!(h.current_field().unwrap(), &[5.0, 6.0, 7.0, 8.0]);
    assert_eq!(h.prev_field(1).unwrap(), &[1.0, 2.0, 3.0, 4.0]);
    assert!(h.prev_field(2).is_none());
    assert_eq!(h.current_meta().unwrap().timestamp_us, 20);
    assert_eq!(h.prev_meta(1).unwrap().timestamp_us, 10);
}

#[test]
fn capacity_evicts_oldest() {
    let mut h = FrameHistory::new(2, 1);
    h.push(vec![1.0], meta_for(10));
    h.push(vec![2.0], meta_for(20));
    h.push(vec![3.0], meta_for(30)); // evicts the 10-stamped entry
    assert_eq!(h.len(), 2);
    assert_eq!(h.current_field().unwrap(), &[3.0]);
    assert_eq!(h.prev_field(1).unwrap(), &[2.0]);
    assert_eq!(h.current_meta().unwrap().timestamp_us, 30);
    assert_eq!(h.prev_meta(1).unwrap().timestamp_us, 20);
}

#[test]
fn iter_fields_yields_oldest_first() {
    let mut h = FrameHistory::new(4, 1);
    h.push(vec![1.0], meta_for(1));
    h.push(vec![2.0], meta_for(2));
    h.push(vec![3.0], meta_for(3));
    let collected: Vec<f32> = h.iter_fields().into_iter().map(|f| f[0]).collect();
    assert_eq!(collected, vec![1.0, 2.0, 3.0]);
}

#[test]
fn empty_history_short_circuits_cleanly() {
    let h = FrameHistory::<f32>::new(3, 5);
    assert!(h.is_empty());
    assert_eq!(h.len(), 0);
    assert_eq!(h.capacity(), 3);
    assert!(h.current_field().is_none());
    assert!(h.prev_field(0).is_none());
    assert!(h.current_meta().is_none());
}

#[test]
fn a_capacity_of_zero_keeps_nothing() {
    let mut h = FrameHistory::new(0, 1);
    h.push(vec![1], meta_for(1));
    h.push(vec![2], meta_for(2));
    assert_eq!((h.len(), h.capacity()), (0, 0));
    assert!(h.is_empty());
    assert!(h.current_field().is_none());
    assert!(h.iter_fields().is_empty());
    assert_eq!(FieldMeta::default().sync_quality, 1000);
}
