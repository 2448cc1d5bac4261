use swayless::swayless_output::SwaylessOutput;
use swayless::wm::WmCommand;

#[test]
fn new_state_sits_on_the_initial_tag() {
    let st = SwaylessOutput::new("eDP-1", "1");
    assert_eq!(st.name, "eDP-1");
    assert_eq!(st.focused_tag, "1");
    assert_eq!(st.prev_tag, "1");
    assert!(!st.is_borrowing_tag("1"));
}

#[test]
fn switch_to_same_tag_issues_nothing() {
    let mut st = SwaylessOutput::new("eDP-1", "1");
    st.borrow_tag_container("2", 77);
    let cmds = st.change_focused_tag("1", 0);
    assert!(cmds.is_empty());
    // the borrow record survives the no-op
    assert!(st.is_borrowing_tag("2"));
}

#[test]
fn switch_twice_is_idempotent() {
    let mut st = SwaylessOutput::new("eDP-1", "1");
    st.borrow_tag_container("3", 40);
    let first = st.change_focused_tag("2", 0);
    // one return move plus the switch
    assert_eq!(first.len(), 2);
    assert!(matches!(
        &first[0],
        WmCommand::MoveContainerToWorkspace { container: 40, destination } if destination == "3"
    ));
    assert!(matches!(
        &first[1],
        WmCommand::SwitchToWorkspace { workspace } if workspace == "2"
    ));
    let second = st.change_focused_tag("2", 0);
    assert!(second.is_empty());
    assert_eq!(st.focused_tag, "2");
    assert_eq!(st.prev_tag, "1");
    assert!(!st.is_borrowing_tag("3"));
}

#[test]
fn switch_renders_concrete_names_for_the_ordinal() {
    let mut st = SwaylessOutput::new("HDMI-1", "1");
    st.borrow_tag_container("4", 9);
    let cmds = st.change_focused_tag("2", 1);
    assert_eq!(cmds.len(), 2);
    assert!(matches!(
        &cmds[0],
        WmCommand::MoveContainerToWorkspace { container: 9, destination } if destination == "4\u{00B2}"
    ));
    assert!(matches!(
        &cmds[1],
        WmCommand::SwitchToWorkspace { workspace } if workspace == "2\u{00B2}"
    ));
}

#[test]
fn borrow_then_return_clears_the_record() {
    let mut st = SwaylessOutput::new("eDP-1", "1");
    st.borrow_tag_containers("2", &vec![10, 11, 12]);
    assert!(st.is_borrowing_tag("2"));
    let (returned, cmds) = st.return_containers("2", 0);
    assert!(returned);
    assert_eq!(cmds.len(), 3);
    let mut moved: Vec<i64> = cmds
        .iter()
        .map(|c| match c {
            WmCommand::MoveContainerToWorkspace { container, destination } => {
                assert_eq!(destination, "2");
                *container
            }
            other => panic!("unexpected command: {:?}", other),
        })
        .collect();
    moved.sort();
    assert_eq!(moved, vec![10, 11, 12]);
    assert!(!st.is_borrowing_tag("2"));
    let (again, cmds_again) = st.return_containers("2", 0);
    assert!(!again);
    assert!(cmds_again.is_empty());
}

#[test]
fn borrow_has_set_semantics() {
    let mut st = SwaylessOutput::new("eDP-1", "1");
    assert!(st.borrow_tag_container("2", 10));
    assert!(!st.borrow_tag_container("2", 10));
    st.borrow_tag_containers("2", &vec![10, 11, 11]);
    let (returned, cmds) = st.return_containers("2", 0);
    assert!(returned);
    assert_eq!(cmds.len(), 2);
}

#[test]
fn a_container_has_at_most_one_owner() {
    let mut st = SwaylessOutput::new("eDP-1", "1");
    st.borrow_tag_container("2", 5);
    // re-recording the same container under another owner moves it
    st.borrow_tag_container("3", 5);
    let (from_two, cmds_two) = st.return_containers("2", 0);
    assert!(!from_two);
    assert!(cmds_two.is_empty());
    let (from_three, cmds_three) = st.return_containers("3", 0);
    assert!(from_three);
    assert_eq!(cmds_three.len(), 1);
    assert!(matches!(
        &cmds_three[0],
        WmCommand::MoveContainerToWorkspace { container: 5, destination } if destination == "3"
    ));
}

#[test]
fn unborrow_strikes_the_container() {
    let mut st = SwaylessOutput::new("eDP-1", "1");
    st.borrow_tag_containers("2", &vec![20, 21]);
    assert!(st.unborrow_container(20));
    assert!(!st.unborrow_container(20));
    let (returned, cmds) = st.return_containers("2", 0);
    assert!(returned);
    assert_eq!(cmds.len(), 1);
    assert!(matches!(
        &cmds[0],
        WmCommand::MoveContainerToWorkspace { container: 21, destination } if destination == "2"
    ));
}

#[test]
fn alt_tab_swaps_and_round_trips() {
    let mut st = SwaylessOutput::new("eDP-1", "1");
    st.change_focused_tag("2", 0);
    assert_eq!(st.focused_tag, "2");
    assert_eq!(st.prev_tag, "1");

    st.borrow_tag_container("5", 50);
    let first = st.alt_tab(0);
    // the borrow taken while on tag 2 is returned before the switch
    assert_eq!(first.len(), 2);
    assert!(matches!(
        &first[0],
        WmCommand::MoveContainerToWorkspace { container: 50, destination } if destination == "5"
    ));
    assert!(matches!(
        &first[1],
        WmCommand::SwitchToWorkspace { workspace } if workspace == "1"
    ));
    assert_eq!(st.focused_tag, "1");
    assert_eq!(st.prev_tag, "2");
    assert!(!st.is_borrowing_tag("5"));

    let second = st.alt_tab(0);
    assert_eq!(second.len(), 1);
    assert!(matches!(
        &second[0],
        WmCommand::SwitchToWorkspace { workspace } if workspace == "2"
    ));
    assert_eq!(st.focused_tag, "2");
    assert_eq!(st.prev_tag, "1");
}

#[test]
fn alt_tab_on_fresh_state_is_a_no_op() {
    let mut st = SwaylessOutput::new("eDP-1", "1");
    let cmds = st.alt_tab(0);
    assert!(cmds.is_empty());
    assert_eq!(st.focused_tag, "1");
    assert_eq!(st.prev_tag, "1");
}

#[test]
fn observe_moves_the_bookkeeping_without_commands() {
    let mut st = SwaylessOutput::new("eDP-1", "1");
    st.observe_focused_tag("4");
    assert_eq!(st.focused_tag, "4");
    assert_eq!(st.prev_tag, "1");
    // observing the tag already focused changes nothing
    st.observe_focused_tag("4");
    assert_eq!(st.focused_tag, "4");
    assert_eq!(st.prev_tag, "1");
}
