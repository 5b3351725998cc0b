use gitalong::CommitSpread;

#[test]
fn empty_spread_is_all_minus() {
    assert_eq!(CommitSpread::empty().to_status_string(), "--------");
}

#[test]
fn full_spread_is_all_plus() {
    assert_eq!(CommitSpread::all().to_status_string(), "++++++++");
}

#[test]
fn first_bit_lights_first_position() {
    assert_eq!(
        CommitSpread::mine_uncommitted().to_status_string(),
        "+-------"
    );
}

#[test]
fn last_bit_lights_last_position() {
    assert_eq!(
        CommitSpread::their_uncommitted().to_status_string(),
        "-------+"
    );
}

#[test]
fn two_bits_render_independently() {
    let s = CommitSpread::mine_active_branch().union(CommitSpread::remote_matching_branch());
    assert_eq!(s.to_status_string(), "-+-+----");
}

#[test]
fn each_flag_lights_its_own_position() {
    let flags = [
        CommitSpread::mine_uncommitted(),
        CommitSpread::mine_active_branch(),
        CommitSpread::mine_other_branch(),
        CommitSpread::remote_matching_branch(),
        CommitSpread::remote_other_branch(),
        CommitSpread::their_other_branch(),
        CommitSpread::their_matching_branch(),
        CommitSpread::their_uncommitted(),
    ];
    for (i, f) in flags.iter().enumerate() {
        let s = f.to_status_string();
        for (j, c) in s.chars().enumerate() {
            assert_eq!(c, if i == j { '+' } else { '-' });
        }
    }
}

#[test]
fn flag_names_follow_flag_order() {
    let s = CommitSpread::their_uncommitted().union(CommitSpread::mine_active_branch());
    assert_eq!(s.flag_names(), vec!["MINE_ACTIVE_BRANCH", "THEIR_UNCOMMITTED"]);
    assert!(CommitSpread::empty().flag_names().is_empty());
    assert_eq!(CommitSpread::all().flag_names().len(), 8);
}

#[test]
fn contains_intersects_and_is_empty() {
    let s = CommitSpread::mine_active_branch().union(CommitSpread::remote_matching_branch());
    assert!(s.contains(CommitSpread::mine_active_branch()));
    assert!(!s.contains(CommitSpread::mine_uncommitted()));
    assert!(s.intersects(CommitSpread::remote_matching_branch().union(CommitSpread::mine_uncommitted())));
    assert!(!s.intersects(CommitSpread::their_uncommitted()));
    assert!(CommitSpread::empty().is_empty());
    assert!(!s.is_empty());
    assert_eq!(s.bits(), 0b0000_1010);
}
