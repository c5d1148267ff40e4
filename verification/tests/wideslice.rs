use wideslice::HeapMem;
use wideslice::IntoWideSlice;
use wideslice::StaticMem;
use wideslice::WideSlice;

fn heap_slice(slice_size: usize, n_slices: usize) -> WideSlice<f64> {
    HeapMem::new(slice_size, n_slices, 0.0).into_wideslice()
}

#[test]
fn heap_partition_sizes() {
    let ws = heap_slice(3, 5);
    assert_eq!(ws.data.len(), 15);
    assert_eq!(ws.offsets.len(), 5);
    assert_eq!(ws.slice_len, 3);
    for idx in 0..5 {
        assert_eq!(ws.as_slice(idx).len(), 3);
        assert_eq!(ws.as_slice(idx).to_vec(), vec![0.0, 0.0, 0.0]);
    }
}

#[test]
fn heap_offsets_partition_whole_buffer() {
    let ws = heap_slice(4, 3);
    let mut offs = ws.offsets.clone();
    offs.sort();
    assert_eq!(offs, vec![0, 4, 8]);
}

#[test]
fn write_then_read_round_trip() {
    let mut ws = heap_slice(2, 4);
    for idx in 0..4 {
        for j in 0..2 {
            let v = (10 * idx + j) as f64;
            ws.write_at(idx, j, v);
            assert_eq!(ws.read_at(idx, j), v);
        }
    }
    for idx in 0..4 {
        for j in 0..2 {
            assert_eq!(ws.read_at(idx, j), (10 * idx + j) as f64);
        }
    }
}

#[test]
fn write_leaves_other_slices_unchanged() {
    let mut ws = heap_slice(3, 3);
    ws.write_at(1, 2, 7.5);
    assert_eq!(ws.as_slice(0).to_vec(), vec![0.0, 0.0, 0.0]);
    assert_eq!(ws.as_slice(1).to_vec(), vec![0.0, 0.0, 7.5]);
    assert_eq!(ws.as_slice(2).to_vec(), vec![0.0, 0.0, 0.0]);
}

#[test]
fn rotate_right_maps_old_indices() {
    let mut ws = heap_slice(2, 4);
    for idx in 0..4 {
        ws.write_at(idx, 0, idx as f64);
        ws.write_at(idx, 1, idx as f64 + 0.5);
    }
    ws.rotate_right(1);
    // New index i presents what old index (i - 1) mod 4 presented.
    for i in 0..4 {
        let old = (i + 4 - 1) % 4;
        assert_eq!(ws.as_slice(i).to_vec(), vec![old as f64, old as f64 + 0.5]);
    }
    ws.rotate_right(2);
    // Total shift is now 3.
    for i in 0..4 {
        let old = (i + 4 - 3) % 4;
        assert_eq!(ws.as_slice(i).to_vec(), vec![old as f64, old as f64 + 0.5]);
    }
}

#[test]
fn rotate_right_moves_no_data() {
    let mut ws = heap_slice(2, 3);
    for idx in 0..3 {
        ws.write_at(idx, 0, idx as f64);
    }
    let before = ws.data.clone();
    ws.rotate_right(2);
    assert_eq!(ws.data, before);
}

#[test]
fn rotate_by_zero_is_identity() {
    let mut ws = heap_slice(2, 4);
    ws.write_at(2, 1, 9.0);
    ws.rotate_right(0);
    for i in 0..4 {
        let expect = if i == 2 { vec![0.0, 9.0] } else { vec![0.0, 0.0] };
        assert_eq!(ws.as_slice(i).to_vec(), expect);
    }
}

#[test]
fn full_cycle_rotation_restores_mapping() {
    let mut ws = heap_slice(2, 4);
    for idx in 0..4 {
        ws.write_at(idx, 0, idx as f64);
    }
    let before: Vec<Vec<f64>> = (0..4).map(|i| ws.as_slice(i).to_vec()).collect();
    ws.rotate_right(4);
    for i in 0..4 {
        assert_eq!(ws.as_slice(i).to_vec(), before[i]);
    }
}

#[test]
fn rotation_beyond_a_cycle_reduces_modulo() {
    let mut a = heap_slice(2, 4);
    let mut b = heap_slice(2, 4);
    for idx in 0..4 {
        a.write_at(idx, 0, idx as f64);
        b.write_at(idx, 0, idx as f64);
    }
    a.rotate_right(6);
    b.rotate_right(2);
    for i in 0..4 {
        assert_eq!(a.as_slice(i).to_vec(), b.as_slice(i).to_vec());
    }
}

#[test]
fn single_slice_rotation_is_identity() {
    let mut ws = heap_slice(8, 1);
    ws.write_at(0, 5, 3.25);
    ws.rotate_right(3);
    assert_eq!(ws.read_at(0, 5), 3.25);
    assert_eq!(ws.as_slice(0).len(), 8);
}

#[test]
fn get_checked_faults_at_and_beyond_bound() {
    let ws = heap_slice(2, 4);
    assert!(ws.get_checked(3).is_some());
    assert!(ws.get_checked(4).is_none());
    assert!(ws.get_checked(5).is_none());
    assert!(ws.get_checked(usize::MAX).is_none());
}

#[test]
fn static_mem_binds_and_rotates() {
    // Eight zeroes split into four sub-slices of two, as the binding variant
    // partitions them; then the permutation scenario.
    let buf: Vec<f64> = vec![0.0; 8];
    let ptr_buf: Vec<usize> = vec![0; 4];
    let mem = StaticMem::new(buf, ptr_buf);
    let mut ws = mem.into_wideslice();
    assert_eq!(ws.slice_len, 2);
    ws.write_at(0, 0, 1.0);
    ws.write_at(0, 1, 2.0);
    ws.write_at(1, 0, 3.0);
    ws.write_at(1, 1, 4.0);
    ws.rotate_right(1);
    assert_eq!(ws.as_slice(0).to_vec(), vec![0.0, 0.0]);
    assert_eq!(ws.as_slice(1).to_vec(), vec![1.0, 2.0]);
    assert_eq!(ws.as_slice(2).to_vec(), vec![3.0, 4.0]);
    assert_eq!(ws.as_slice(3).to_vec(), vec![0.0, 0.0]);
}

#[test]
fn static_mem_preserves_data() {
    let buf: Vec<f64> = vec![1.0, 2.0, 3.0, 4.0, 5.0, 6.0];
    let ptr_buf: Vec<usize> = vec![0; 3];
    let ws = StaticMem::new(buf, ptr_buf).into_wideslice();
    assert_eq!(ws.as_slice(0).to_vec(), vec![1.0, 2.0]);
    assert_eq!(ws.as_slice(1).to_vec(), vec![3.0, 4.0]);
    assert_eq!(ws.as_slice(2).to_vec(), vec![5.0, 6.0]);
}

#[test]
fn try_new_rejects_non_divisible_lengths() {
    let buf: Vec<f64> = vec![0.0; 7];
    let ptr_buf: Vec<usize> = vec![0; 4];
    assert!(StaticMem::try_new(buf, ptr_buf).is_none());
}

#[test]
fn try_new_rejects_empty_offset_buffer() {
    let buf: Vec<f64> = vec![0.0; 8];
    let ptr_buf: Vec<usize> = Vec::new();
    assert!(StaticMem::try_new(buf, ptr_buf).is_none());
}

#[test]
fn try_new_rejects_too_short_data_buffer() {
    let buf: Vec<f64> = vec![0.0];
    let ptr_buf: Vec<usize> = vec![0];
    assert!(StaticMem::try_new(buf, ptr_buf).is_none());
}

#[test]
fn try_new_accepts_divisible_lengths() {
    let buf: Vec<f64> = vec![0.0; 8];
    let ptr_buf: Vec<usize> = vec![0; 4];
    let mem = StaticMem::try_new(buf, ptr_buf);
    assert!(mem.is_some());
    let ws = mem.unwrap().into_wideslice();
    assert_eq!(ws.slice_len, 2);
    assert_eq!(ws.offsets, vec![0, 2, 4, 6]);
}

#[test]
fn heap_mem_works_with_integer_elements() {
    let mut ws: WideSlice<u32> = HeapMem::new(2, 2, 5).into_wideslice();
    assert_eq!(ws.as_slice(0).to_vec(), vec![5, 5]);
    ws.write_at(1, 1, 42);
    assert_eq!(ws.read_at(1, 1), 42);
    assert_eq!(ws.read_at(0, 0), 5);
}
