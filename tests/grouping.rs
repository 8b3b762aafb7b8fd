use shift::stateless_grouping::GroupIter;

#[test]
fn member_zero_is_index() {
    let grouping = GroupIter::new(4, 4, 42, 4);
    for index in 0..16u32 {
        assert_eq!(grouping.get_member(index, 0), index);
    }
}

#[test]
fn group_known_members() {
    let grouping = GroupIter::new(4, 4, 42, 4);
    let mut members = Vec::new();
    grouping.get_group(5, &mut members);
    assert_eq!(members, vec![5, 0, 7, 8]);
    grouping.get_group(0, &mut members);
    assert_eq!(members, vec![0, 7, 8, 5]);
    for offset in 0..4u32 {
        assert_eq!(grouping.get_member(5, offset), [5, 0, 7, 8][offset as usize]);
    }
}

#[test]
fn group_is_closed_and_distinct() {
    let grouping = GroupIter::new(4, 4, 42, 4);
    for index in 0..16u32 {
        let mut members = Vec::new();
        grouping.get_group(index, &mut members);
        assert_eq!(members.len(), 4);
        let mut sorted = members.clone();
        sorted.sort();
        sorted.dedup();
        assert_eq!(sorted.len(), 4);
        for &m in &members {
            assert!(m < 16);
            let mut other = Vec::new();
            grouping.get_group(m, &mut other);
            other.sort();
            assert_eq!(other, sorted);
        }
    }
}

#[test]
fn get_group_resizes_buffer() {
    let grouping = GroupIter::new(4, 4, 42, 4);
    let mut long = vec![99u32; 10];
    grouping.get_group(5, &mut long);
    assert_eq!(long, vec![5, 0, 7, 8]);
    let mut short = vec![99u32; 1];
    grouping.get_group(5, &mut short);
    assert_eq!(short, vec![5, 0, 7, 8]);
}

#[test]
fn member_offset_wraps_around_group() {
    let grouping = GroupIter::new(4, 4, 42, 4);
    for index in 0..16u32 {
        for offset in 0..4u32 {
            assert_eq!(
                grouping.get_member(index, offset + 4),
                grouping.get_member(index, offset)
            );
        }
        assert_eq!(grouping.get_member(index, u32::MAX), grouping.get_member(index, 3));
    }
}

#[test]
fn groups_of_one_and_whole_domain() {
    let singles = GroupIter::new(1, 4, 42, 4);
    for index in 0..16u32 {
        assert_eq!(singles.get_member(index, 3), index);
    }
    let whole = GroupIter::new(16, 4, 42, 4);
    let mut members = Vec::new();
    whole.get_group(3, &mut members);
    members.sort();
    assert_eq!(members, (0..16u32).collect::<Vec<u32>>());
}
