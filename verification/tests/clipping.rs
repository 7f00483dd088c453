use dialoguer::clipping::{layout_slots, Cell, ClippingGraph, DrawableMasks, Slot};

fn drawable(index: usize, is_masked: bool, masks: Vec<i32>) -> DrawableMasks {
    DrawableMasks { index, is_masked, masks }
}

fn slot(channel: u32, buffer: u32, count: u32, index: u32) -> Slot {
    Slot { channel, buffer, count, index }
}

#[test]
fn drawables_with_the_same_masks_share_a_context() {
    let ds = vec![
        drawable(0, true, vec![5, 6]),
        drawable(1, false, vec![]),
        drawable(2, true, vec![6, 5]),
        drawable(3, true, vec![7]),
        drawable(4, true, vec![5]),
    ];
    let g = ClippingGraph::new(&ds);
    let ccs = g.get_clipping_contexts_for_mask();
    assert_eq!(ccs.len(), 3);
    assert_eq!(ccs[0].ids, vec![5, 6]);
    assert_eq!(ccs[0].drawable_ids, vec![0, 2]);
    assert_eq!(ccs[1].ids, vec![7]);
    assert_eq!(ccs[1].drawable_ids, vec![3]);
    assert_eq!(ccs[2].ids, vec![5]);
    assert_eq!(ccs[0].cell, Cell::Empty);
    assert_eq!(g.try_get_clipping_context_for_draw(2).map(|c| c.ids.clone()), Some(vec![5, 6]));
    assert!(g.try_get_clipping_context_for_draw(1).is_none());
    assert!(g.try_get_clipping_context_for_draw(9).is_none());
}

#[test]
fn one_context_takes_a_whole_channel() {
    assert_eq!(layout_slots(1, 1), Some(vec![slot(0, 0, 1, 0)]));
}

#[test]
fn no_context_or_too_many_fall_back_to_whole_channels() {
    assert_eq!(layout_slots(0, 1), None);
    assert_eq!(layout_slots(37, 1), None);
    assert_eq!(layout_slots(65, 2), None);
    assert_eq!(layout_slots(36, 1).map(|v| v.len()), Some(36));
    assert_eq!(layout_slots(64, 2).map(|v| v.len()), Some(64));
}

#[test]
fn five_contexts_on_one_texture() {
    assert_eq!(
        layout_slots(5, 1),
        Some(vec![
            slot(0, 0, 2, 0),
            slot(0, 0, 2, 1),
            slot(1, 0, 1, 0),
            slot(2, 0, 1, 0),
            slot(3, 0, 1, 0),
        ])
    );
}

#[test]
fn five_contexts_on_two_textures_give_the_second_one_less() {
    assert_eq!(
        layout_slots(5, 2),
        Some(vec![
            slot(0, 0, 1, 0),
            slot(1, 0, 1, 0),
            slot(2, 0, 1, 0),
            slot(0, 1, 1, 0),
            slot(1, 1, 1, 0),
        ])
    );
}

#[test]
fn thirty_six_contexts_cut_every_channel_in_nine() {
    let v = layout_slots(36, 1).unwrap();
    assert!(v.iter().all(|s| s.count == 9));
    assert_eq!(v[35], slot(3, 0, 9, 8));
}

#[test]
fn setup_lays_out_the_contexts_in_use() {
    let ds = vec![drawable(0, true, vec![1]), drawable(1, true, vec![2]), drawable(2, true, vec![3])];
    let mut g = ClippingGraph::new(&ds);
    g.setup(&vec![true, false, true], 1);
    let ccs = g.get_clipping_contexts_for_mask();
    assert!(ccs[0].is_using && !ccs[1].is_using && ccs[2].is_using);
    // Two in use: the first two contexts take channels 0 and 1.
    assert_eq!((ccs[0].layout_channel_index, ccs[0].cell), (0, Cell::Grid { count: 1, index: 0 }));
    assert_eq!((ccs[1].layout_channel_index, ccs[1].cell), (1, Cell::Grid { count: 1, index: 0 }));
    assert_eq!(ccs[2].cell, Cell::Empty);
}

#[test]
fn setup_with_too_many_masks_uses_whole_channels() {
    let ds: Vec<DrawableMasks> = (0..37).map(|k| drawable(k, true, vec![k as i32])).collect();
    let mut g = ClippingGraph::new(&ds);
    g.setup(&vec![true; 37], 1);
    let ccs = g.get_clipping_contexts_for_mask();
    assert!(ccs.iter().all(|c| c.cell == Cell::Whole && c.layout_channel_index == 0 && c.buffer_index == 0));
}
