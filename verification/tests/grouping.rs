use kestrelcut::grouping::{group_clips, group_members, ungroup_clips, ClipGroup};
use kestrelcut::model::IdGen;

fn clips(spec: &[(u64, Option<u64>)]) -> Vec<ClipGroup> {
    spec.iter().map(|&(id, group)| ClipGroup { id, group }).collect()
}

#[test]
fn members_in_clip_order() {
    let c = clips(&[(1, Some(9)), (2, None), (3, Some(9)), (4, Some(8))]);
    assert_eq!(group_members(&c, 9), vec![1, 3]);
    assert_eq!(group_members(&c, 8), vec![4]);
    assert_eq!(group_members(&c, 7), Vec::<u64>::new());
}

#[test]
fn grouping_makes_named_clips_members() {
    let mut c = clips(&[(1, None), (2, None), (3, Some(5)), (4, None)]);
    let mut gen = IdGen::new();
    gen.next_id();
    let g = group_clips(&mut c, &[4, 1, 77], &mut gen);
    assert_eq!(g, 2);
    assert_eq!(gen.next_id(), 3);
    assert_eq!(group_members(&c, g), vec![1, 4]);
    assert_eq!(c[1].group, None);
    assert_eq!(c[2].group, Some(5));
}

#[test]
fn grouping_moves_clips_out_of_old_group() {
    let mut c = clips(&[(1, Some(5)), (2, Some(5))]);
    let mut gen = IdGen::new();
    let g = group_clips(&mut c, &[2], &mut gen);
    assert_eq!(g, 1);
    assert_eq!(group_members(&c, 5), vec![1]);
    assert_eq!(group_members(&c, 1), vec![2]);
}

#[test]
fn repeated_id_changes_only_first_clip() {
    let mut c = clips(&[(7, None), (7, None)]);
    let mut gen = IdGen::new();
    let g = group_clips(&mut c, &[7, 7], &mut gen);
    assert_eq!(c[0].group, Some(g));
    assert_eq!(c[1].group, None);
}

#[test]
fn ungrouping_leaves_no_member() {
    let mut c = clips(&[(1, Some(3)), (2, Some(3)), (4, Some(3)), (5, Some(6))]);
    ungroup_clips(&mut c, &[2, 5, 100]);
    assert_eq!(group_members(&c, 3), vec![1, 4]);
    assert_eq!(group_members(&c, 6), Vec::<u64>::new());
    assert_eq!(c.iter().map(|x| x.id).collect::<Vec<_>>(), vec![1, 2, 4, 5]);
}
