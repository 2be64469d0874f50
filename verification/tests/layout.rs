use ceph_doctor::common::{CephPgDump, PgStats};
use ceph_doctor::monitor::state::CommandError;
use ceph_doctor::monitor::ui::layout::{
    content_layout, popup_area, table_height, Area, ContentLayout, ERROR_HEIGHT, FOOTER_HEIGHT,
    HEADER_HEIGHT,
};
use ceph_doctor::monitor::ui::popup::{popup_sections, PopupSections};

fn dump(states: &[&str]) -> CephPgDump {
    let mut data = CephPgDump::default();
    for state in states {
        let mut group = PgStats::default();
        group.state = state.to_string();
        data.pg_map.pg_stats.push(group);
    }
    data
}

#[test]
fn fixed_panels_take_three_lines() {
    assert_eq!(HEADER_HEIGHT, 3);
    assert_eq!(FOOTER_HEIGHT, 3);
    assert_eq!(ERROR_HEIGHT, 3);
}

#[test]
fn tables_take_between_four_and_fifteen_lines() {
    assert_eq!(table_height(0), 4);
    assert_eq!(table_height(1), 4);
    assert_eq!(table_height(2), 5);
    assert_eq!(table_height(12), 15);
    assert_eq!(table_height(13), 15);
    assert_eq!(table_height(usize::MAX), 15);
}

#[test]
fn the_table_of_inconsistent_groups_is_left_out_when_empty() {
    let mut data = dump(&["a", "b", "a"]);
    data.pg_map.pg_stats_sum.stat_sum.num_objects_degraded = 4;
    let layout = content_layout(&data, 0);
    assert_eq!(
        layout,
        ContentLayout { recovery_height: 4, pg_states_height: 5, inconsistent_height: None }
    );
    assert_eq!(layout.osd_index(), 2);
    let layout = content_layout(&data, 2);
    assert_eq!(layout.inconsistent_height, Some(5));
    assert_eq!(layout.osd_index(), 3);
    assert_eq!(content_layout(&data, 40).inconsistent_height, Some(15));
    assert_eq!(content_layout(&dump(&[]), 0).pg_states_height, 4);
}

#[test]
fn the_command_error_sits_in_the_middle() {
    assert_eq!(popup_area(100, 50), Area { x: 7, y: 5, width: 85, height: 40 });
    assert_eq!(popup_area(80, 24), Area { x: 6, y: 2, width: 68, height: 19 });
    assert_eq!(popup_area(0, 0), Area { x: 0, y: 0, width: 0, height: 0 });
    assert_eq!(popup_area(1, 1), Area { x: 0, y: 0, width: 0, height: 0 });
    assert_eq!(
        popup_area(u16::MAX, u16::MAX),
        Area { x: 4915, y: 6553, width: 55704, height: 52428 }
    );
}

#[test]
fn the_command_error_takes_its_share_of_any_screen() {
    for size in 0..=u16::MAX {
        let area = popup_area(size, size);
        assert_eq!(area.width, (size as f32 * 0.85) as u16, "width of {size}");
        assert_eq!(area.height, (size as f32 * 0.8) as u16, "height of {size}");
    }
}

#[test]
fn parts_of_a_command_error_are_shown_when_they_hold_something() {
    let mut error = CommandError {
        command: "c".to_string(),
        stdout: " \n".to_string(),
        stderr: "boom".to_string(),
        exit_code: 0,
        scroll_offset: 0,
    };
    assert_eq!(
        popup_sections(&error),
        PopupSections { exit_code: false, stdout: false, stderr: true }
    );
    error.exit_code = -1;
    error.stdout = " x ".to_string();
    error.stderr = String::new();
    assert_eq!(
        popup_sections(&error),
        PopupSections { exit_code: true, stdout: true, stderr: false }
    );
}
