use ceph_doctor::common::OsdDataMovement;
use ceph_doctor::monitor::data::movement::fresh_movement;
use ceph_doctor::monitor::data::estimator::Rate;
use ceph_doctor::monitor::ui::osd_table::{movement_row, osd_movement_cells, osd_movement_rows};
use std::collections::HashMap;

fn by_node(records: Vec<OsdDataMovement>) -> HashMap<u32, OsdDataMovement> {
    records.into_iter().map(|m| (m.osd_id, m)).collect()
}

fn moving(osd: u32, missing: i64, excess: i64) -> OsdDataMovement {
    let mut m = fresh_movement(osd);
    m.missing_objects = missing;
    m.incoming_objects = missing;
    m.excess_objects = excess;
    m.outgoing_objects = excess;
    m
}

#[test]
fn nodes_without_movement_are_not_shown() {
    let movements =
        by_node(vec![moving(1, 0, 0), moving(2, 5, 0), moving(3, 0, 0), moving(4, 0, 7)]);
    let rows = osd_movement_rows(&movements);
    let shown: Vec<u32> = rows.iter().map(|row| row.osd_id).collect();
    assert_eq!(shown, vec![2, 4]);
    for row in &rows {
        assert!(row.missing_total > 0 || row.excess_total > 0);
    }
    assert!(osd_movement_rows(&by_node(vec![moving(1, 0, 0)])).is_empty());
    assert!(osd_movement_rows(&HashMap::new()).is_empty());
}

#[test]
fn rows_are_ordered_by_missing_then_excess_then_node() {
    let movements = by_node(vec![
        moving(9, 10, 0),
        moving(3, 10, 5),
        moving(7, 50, 0),
        moving(1, 10, 5),
        moving(4, 0, 99),
        moving(2, 10, 0),
        moving(8, 0, 0),
    ]);
    let rows = osd_movement_rows(&movements);
    let shown: Vec<u32> = rows.iter().map(|row| row.osd_id).collect();
    assert_eq!(shown, vec![7, 1, 3, 2, 9, 4]);
}

#[test]
fn a_row_takes_over_the_record() {
    let mut m = moving(12, 30, 40);
    m.missing_objects_waiting = 10;
    m.missing_objects_active = 20;
    m.excess_objects_waiting = 15;
    m.excess_objects_active = 25;
    m.incoming_rate = Some(Rate { rising: false, amount: 3, seconds: 2 });
    m.incoming_predicted_time_secs = Some(90);
    let row = movement_row(12, &m);
    assert_eq!(row.osd_id, 12);
    assert_eq!(row.missing_total, 30);
    assert_eq!(row.excess_total, 40);
    assert_eq!(row.missing_waiting, 10);
    assert_eq!(row.missing_active, 20);
    assert_eq!(row.excess_waiting, 15);
    assert_eq!(row.excess_active, 25);
    assert_eq!(row.missing_rate, Some(Rate { rising: false, amount: 3, seconds: 2 }));
    assert_eq!(row.missing_eta, Some(90));
    assert_eq!(row.excess_rate, None);
    assert_eq!(row.excess_eta, None);
}

#[test]
fn cells_are_padded_to_their_fields() {
    let mut m = moving(12, 1520, 40);
    m.missing_objects_waiting = 1500;
    m.missing_objects_active = 20;
    m.excess_objects_waiting = 40;
    m.incoming_rate = Some(Rate { rising: false, amount: 3, seconds: 2 });
    m.incoming_predicted_time_secs = Some(90);
    let cells = osd_movement_cells(&movement_row(12, &m));
    assert_eq!(cells.osd, "12");
    assert_eq!(cells.missing_waiting, "  1.5K");
    assert_eq!(cells.missing_active, "    20");
    assert!(cells.missing_active_bold);
    assert_eq!(cells.missing_rate, "    1.5");
    assert_eq!(cells.missing_eta, "    1m30s");
    assert_eq!(cells.excess_waiting, "    40");
    assert_eq!(cells.excess_active, "     0");
    assert!(!cells.excess_active_bold);
    assert_eq!(cells.excess_rate, "    N/A");
    assert_eq!(cells.excess_eta, "      N/A");
}

#[test]
fn a_row_names_the_node_that_the_record_is_kept_under() {
    let mut movements = HashMap::new();
    movements.insert(7, moving(99, 5, 0));
    let rows = osd_movement_rows(&movements);
    assert_eq!(rows.len(), 1);
    assert_eq!(rows[0].osd_id, 7);
    assert_eq!(rows[0].missing_total, 5);
}
