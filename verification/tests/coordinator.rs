use swayless::swayless::Swayless;
use swayless::wm::{OutputInfo, SwaylessError, WmCommand};

fn output(name: &str, active: bool, focused: bool, visible: Option<&str>) -> OutputInfo {
    OutputInfo {
        name: name.to_string(),
        active,
        focused,
        visible_workspace: visible.map(|v| v.to_string()),
    }
}

#[test]
fn startup_initializes_each_active_output() {
    // two outputs, ordinals 0 and 1, both starting on tag "1": the
    // concrete workspaces are "1" and "1\u{00B2}"
    let outputs = vec![
        output("eDP-1", true, true, Some("1")),
        output("HDMI-1", true, false, Some("1\u{00B2}")),
    ];
    let (sw, cmds) = Swayless::new("1", &outputs);
    assert_eq!(sw.sway_outputs.len(), 2);
    assert!(sw.knows_output("eDP-1"));
    assert!(sw.knows_output("HDMI-1"));
    assert!(!sw.knows_output("DP-3"));
    // walked in reverse: the second output first, the first output last
    assert_eq!(cmds.len(), 4);
    assert!(matches!(&cmds[0], WmCommand::FocusOutput { output } if output == "HDMI-1"));
    assert!(matches!(
        &cmds[1],
        WmCommand::SwitchToWorkspace { workspace } if workspace == "1\u{00B2}"
    ));
    assert!(matches!(&cmds[2], WmCommand::FocusOutput { output } if output == "eDP-1"));
    assert!(matches!(
        &cmds[3],
        WmCommand::SwitchToWorkspace { workspace } if workspace == "1"
    ));
}

#[test]
fn startup_skips_inactive_outputs() {
    let outputs = vec![
        output("eDP-1", true, true, Some("1")),
        output("HDMI-1", false, false, None),
    ];
    let (sw, cmds) = Swayless::new("1", &outputs);
    assert_eq!(sw.sway_outputs.len(), 1);
    assert!(!sw.knows_output("HDMI-1"));
    assert_eq!(cmds.len(), 2);
}

#[test]
fn focus_returns_borrows_then_switches() {
    let outputs = vec![output("eDP-1", true, true, Some("1"))];
    let (mut sw, _) = Swayless::new("1", &outputs);
    sw.move_workspace_containers_to_here("2", 0, "eDP-1", &vec![30, 31]);
    let cmds = sw.focus_to_workspace("3", 0, "eDP-1");
    assert_eq!(cmds.len(), 3);
    assert!(matches!(&cmds[0], WmCommand::MoveContainerToWorkspace { .. }));
    assert!(matches!(&cmds[1], WmCommand::MoveContainerToWorkspace { .. }));
    assert!(matches!(
        &cmds[2],
        WmCommand::SwitchToWorkspace { workspace } if workspace == "3"
    ));
    assert_eq!(sw.sway_outputs[0].focused_tag, "3");
    assert_eq!(sw.sway_outputs[0].prev_tag, "1");
}

#[test]
fn bring_tag_here_borrows_and_toggles_back() {
    let outputs = vec![output("eDP-1", true, true, Some("1"))];
    let (mut sw, _) = Swayless::new("1", &outputs);
    let borrow = sw.move_workspace_containers_to_here("2", 0, "eDP-1", &vec![30, 31]);
    assert_eq!(borrow.len(), 1);
    assert!(matches!(
        &borrow[0],
        WmCommand::MoveMatchingToWorkspace { from_workspace, to_workspace }
            if from_workspace == "2" && to_workspace == "1"
    ));
    assert!(sw.sway_outputs[0].is_borrowing_tag("2"));
    // the same command again gives the containers back
    let back = sw.move_workspace_containers_to_here("2", 0, "eDP-1", &vec![30, 31]);
    assert_eq!(back.len(), 2);
    assert!(back.iter().all(|c| matches!(
        c,
        WmCommand::MoveContainerToWorkspace { destination, .. } if destination == "2"
    )));
    assert!(!sw.sway_outputs[0].is_borrowing_tag("2"));
    // and a third time starts a fresh borrow again
    let third = sw.move_workspace_containers_to_here("2", 0, "eDP-1", &vec![30]);
    assert_eq!(third.len(), 1);
    assert!(matches!(&third[0], WmCommand::MoveMatchingToWorkspace { .. }));
}

#[test]
fn bring_empty_tag_here_records_no_borrow() {
    // nothing lives on tag "2": no borrow record may appear and only the
    // filter-move goes out
    let outputs = vec![output("eDP-1", true, true, Some("1"))];
    let (mut sw, _) = Swayless::new("1", &outputs);
    let cmds = sw.move_workspace_containers_to_here("2", 0, "eDP-1", &vec![]);
    assert_eq!(cmds.len(), 1);
    assert!(matches!(&cmds[0], WmCommand::MoveMatchingToWorkspace { .. }));
    assert!(!sw.sway_outputs[0].is_borrowing_tag("2"));
    // so the next invocation has nothing to return and borrows again
    let again = sw.move_workspace_containers_to_here("2", 0, "eDP-1", &vec![]);
    assert_eq!(again.len(), 1);
    assert!(matches!(&again[0], WmCommand::MoveMatchingToWorkspace { .. }));
}

#[test]
fn move_container_away_unborrows_it() {
    let outputs = vec![output("eDP-1", true, true, Some("1"))];
    let (mut sw, _) = Swayless::new("1", &outputs);
    sw.move_workspace_containers_to_here("2", 0, "eDP-1", &vec![42]);
    let cmds = sw.move_container_to_workspace("5", 0, "eDP-1", 42);
    assert_eq!(cmds.len(), 1);
    assert!(matches!(
        &cmds[0],
        WmCommand::MoveFocusedToWorkspace { target } if target == "5"
    ));
    // 42 left the borrow records, so returning tag 2 has nothing to do
    let back = sw.move_workspace_containers_to_here("2", 0, "eDP-1", &vec![]);
    assert!(matches!(&back[0], WmCommand::MoveMatchingToWorkspace { .. }));
}

#[test]
fn move_container_home_keeps_it_borrowed() {
    let outputs = vec![output("eDP-1", true, true, Some("1"))];
    let (mut sw, _) = Swayless::new("1", &outputs);
    sw.move_workspace_containers_to_here("2", 0, "eDP-1", &vec![42]);
    // sending a container "to" the tag we are borrowing from keeps it
    // here and records it under that owner
    let cmds = sw.move_container_to_workspace("2", 0, "eDP-1", 77);
    assert_eq!(cmds.len(), 1);
    assert!(matches!(
        &cmds[0],
        WmCommand::MoveFocusedToWorkspace { target } if target == "1"
    ));
    let back = sw.move_workspace_containers_to_here("2", 0, "eDP-1", &vec![]);
    assert_eq!(back.len(), 2);
    let mut moved: Vec<i64> = back
        .iter()
        .map(|c| match c {
            WmCommand::MoveContainerToWorkspace { container, .. } => *container,
            other => panic!("unexpected command: {:?}", other),
        })
        .collect();
    moved.sort();
    assert_eq!(moved, vec![42, 77]);
}

#[test]
fn adjacent_output_wraps_around() {
    // focus on the last output: the next output is the first
    let outputs = vec![
        output("A", true, false, Some("1")),
        output("B", true, false, Some("2")),
        output("C", true, true, Some("3")),
    ];
    let (sw, _) = Swayless::new("1", &outputs);
    let cmds = sw.move_container_to_next_output(&outputs).unwrap();
    assert_eq!(cmds.len(), 2);
    assert!(matches!(
        &cmds[0],
        WmCommand::MoveFocusedToWorkspace { target } if target == "1"
    ));
    assert!(matches!(
        &cmds[1],
        WmCommand::SwitchToWorkspace { workspace } if workspace == "1"
    ));
    // and backward from the first output reaches the last
    let outputs2 = vec![
        output("A", true, true, Some("1")),
        output("B", true, false, Some("2")),
        output("C", true, false, Some("3")),
    ];
    let back = sw.move_container_to_prev_output(&outputs2).unwrap();
    assert!(matches!(
        &back[1],
        WmCommand::SwitchToWorkspace { workspace } if workspace == "3"
    ));
}

#[test]
fn adjacent_output_errors() {
    let nobody_focused = vec![output("A", true, false, Some("1"))];
    let (sw, _) = Swayless::new("1", &nobody_focused);
    assert_eq!(
        sw.move_container_to_next_output(&nobody_focused),
        Err(SwaylessError::NoFocusedOutput)
    );
    let blank_target = vec![
        output("A", true, true, Some("1")),
        output("B", true, false, None),
    ];
    assert_eq!(
        sw.move_container_to_next_output(&blank_target),
        Err(SwaylessError::NoVisibleWorkspace)
    );
}

#[test]
fn alt_tab_routes_to_the_focused_output() {
    let outputs = vec![output("eDP-1", true, true, Some("1"))];
    let (mut sw, _) = Swayless::new("1", &outputs);
    sw.focus_to_workspace("2", 0, "eDP-1");
    let cmds = sw.alt_tab_tag(0, "eDP-1");
    assert_eq!(cmds.len(), 1);
    assert!(matches!(
        &cmds[0],
        WmCommand::SwitchToWorkspace { workspace } if workspace == "1"
    ));
    assert_eq!(sw.sway_outputs[0].focused_tag, "1");
    assert_eq!(sw.sway_outputs[0].prev_tag, "2");
}

#[test]
fn observed_focus_change_updates_the_right_output() {
    let outputs = vec![
        output("eDP-1", true, true, Some("1")),
        output("HDMI-1", true, false, Some("1\u{00B2}")),
    ];
    let (mut sw, _) = Swayless::new("1", &outputs);
    // the manager reports workspace "7²": tag "7" on the output at
    // ordinal 1
    assert!(sw.update_focused("7\u{00B2}", &outputs));
    assert_eq!(sw.sway_outputs[0].focused_tag, "7");
    assert_eq!(sw.sway_outputs[0].prev_tag, "1");
    // machine order is reversed relative to the listing
    assert_eq!(sw.sway_outputs[0].name, "HDMI-1");
    assert_eq!(sw.sway_outputs[1].name, "eDP-1");
    assert_eq!(sw.sway_outputs[1].focused_tag, "1");
    // a name that points past the listing is ignored
    assert!(!sw.update_focused("7\u{2079}", &outputs));
}

#[test]
fn get_workspace_name_matches_the_renderer() {
    let (sw, _) = Swayless::new("1", &vec![output("eDP-1", true, true, Some("1"))]);
    assert_eq!(sw.get_workspace_name("6", 0), "6");
    assert_eq!(sw.get_workspace_name("6", 3), "6\u{2074}");
}

#[test]
fn observed_plain_name_updates_the_first_output() {
    let outputs = vec![
        output("eDP-1", true, true, Some("1")),
        output("HDMI-1", true, false, Some("1\u{00B2}")),
    ];
    let (mut sw, _) = Swayless::new("1", &outputs);
    // a plain workspace name belongs to the output at ordinal 0
    assert!(sw.update_focused("5", &outputs));
    assert_eq!(sw.sway_outputs[1].name, "eDP-1");
    assert_eq!(sw.sway_outputs[1].focused_tag, "5");
    assert_eq!(sw.sway_outputs[1].prev_tag, "1");
    assert_eq!(sw.sway_outputs[0].focused_tag, "1");
}
