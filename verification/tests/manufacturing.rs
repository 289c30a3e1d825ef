use std::time::Duration;

use point_index::manufacturing::{
    deliver_all, AssemblyLine, ProductionItem, UnitType, LATEST, MANUFACTURING_TIME,
};

fn ns(time: Duration) -> u64 {
    time.as_nanos() as u64
}

#[test]
fn test_assembly_line() {
    let mut line = AssemblyLine::default();

    line.restart(ns(Duration::from_secs(0)));
    assert!(line.produce(ns(Duration::from_secs(20))).is_none());

    line.enqueue(UnitType::Attacker);
    line.enqueue(UnitType::Attacker);
    line.restart(ns(Duration::from_secs(20)));
    assert!(line.produce(ns(Duration::from_secs(21))).is_none());
    assert_eq!(
        line.produce(ns(Duration::from_secs(23))).unwrap(),
        UnitType::Attacker
    );
    assert!(line.produce(ns(Duration::from_secs(23))).is_none());
    assert_eq!(
        line.produce(ns(Duration::from_secs(24))).unwrap(),
        UnitType::Attacker
    );
    assert!(line.produce(ns(Duration::from_secs(30))).is_none());

    line.enqueue(UnitType::Attacker);
    line.enqueue(UnitType::Attacker);
    line.restart(ns(Duration::from_secs(50)));
    assert!(line.produce(ns(Duration::from_secs(51))).is_none());
    line.stop(ns(Duration::from_secs(51)));
    line.restart(ns(Duration::from_secs(60)));
    assert!(line.produce(ns(Duration::from_secs_f32(60.5))).is_none());
    assert_eq!(
        line.produce(ns(Duration::from_secs(61))).unwrap(),
        UnitType::Attacker
    );
    assert_eq!(
        line.produce(ns(Duration::from_secs(63))).unwrap(),
        UnitType::Attacker
    );
    assert!(line.produce(ns(Duration::from_secs(90))).is_none());
}

const MS: u64 = 1_000_000;

#[test]
fn manufacturing_takes_two_seconds() {
    assert_eq!(MANUFACTURING_TIME, 2_000_000_000);
    assert_eq!(LATEST, u64::MAX - 2_000_000_000);
}

#[test]
fn item_progress_counts_only_active_time() {
    let mut item = ProductionItem::new(UnitType::Attacker);
    assert_eq!(item.unit(), UnitType::Attacker);
    assert!(!item.is_active());
    assert_eq!(item.progress(5000 * MS), 0);
    assert_eq!(item.finished(5000 * MS), None);
    item.restart(1000 * MS);
    assert!(item.is_active());
    assert_eq!(item.progress(1700 * MS), 700 * MS);
    item.stop(1700 * MS);
    assert!(!item.is_active());
    assert_eq!(item.progress(9000 * MS), 700 * MS);
    item.restart(10000 * MS);
    assert_eq!(item.progress(11000 * MS), 1700 * MS);
    assert_eq!(item.finished(11299 * MS), None);
    assert_eq!(item.finished(11300 * MS), Some(0));
    assert_eq!(item.finished(11450 * MS), Some(150 * MS));
}

#[test]
fn accumulated_time_is_clipped() {
    let mut item = ProductionItem::new(UnitType::Attacker);
    item.restart(0);
    item.stop(50000 * MS);
    assert_eq!(item.progress(60000 * MS), 2000 * MS);
    assert_eq!(item.finished(60000 * MS), Some(0));
    item.restart(60000 * MS);
    assert_eq!(item.finished(60500 * MS), Some(500 * MS));
}

#[test]
fn stopped_line_produces_what_is_finished_but_starts_nothing() {
    let mut line = AssemblyLine::default();
    line.enqueue(UnitType::Attacker);
    line.enqueue(UnitType::Attacker);
    line.restart(0);
    line.stop(2500 * MS);
    // the first unit is finished; the line is stopped, so the second one
    // does not start
    assert_eq!(line.produce(3000 * MS), Some(UnitType::Attacker));
    assert_eq!(line.produce(9000 * MS), None);
    line.restart(9000 * MS);
    assert_eq!(line.produce(10999 * MS), None);
    assert_eq!(line.produce(11000 * MS), Some(UnitType::Attacker));
    assert_eq!(line.produce(11000 * MS), None);
}

#[test]
fn overdue_time_passes_on_to_the_next_unit() {
    let mut line = AssemblyLine::default();
    for _ in 0..3 {
        line.enqueue(UnitType::Attacker);
    }
    line.restart(100 * MS);
    // 4.5 s later two units are done and the third is a quarter through
    assert_eq!(line.produce(4600 * MS), Some(UnitType::Attacker));
    assert_eq!(line.produce(4600 * MS), Some(UnitType::Attacker));
    assert_eq!(line.produce(4600 * MS), None);
    assert_eq!(line.produce(6099 * MS), None);
    assert_eq!(line.produce(6100 * MS), Some(UnitType::Attacker));
}

#[test]
fn clock_at_its_latest() {
    let mut line = AssemblyLine::default();
    line.enqueue(UnitType::Attacker);
    line.restart(0);
    assert_eq!(line.produce(LATEST), Some(UnitType::Attacker));
}

#[test]
fn delivery_stops_at_the_owners_limit() {
    let mut line = AssemblyLine::default();
    for _ in 0..4 {
        line.enqueue(UnitType::Attacker);
    }
    // nothing is finished yet: the line starts
    assert!(line.deliver(0, 8, 10).is_empty());
    // seven seconds later three units are finished, but the owner has room
    // for two
    assert_eq!(line.deliver(7000 * MS, 8, 10), vec![UnitType::Attacker, UnitType::Attacker]);
    assert_eq!(line.len(), 2);
    // the line was stopped at the limit with the third unit finished
    assert!(line.deliver(8000 * MS, 10, 10).is_empty());
    assert_eq!(line.len(), 2);
    assert_eq!(line.deliver(8000 * MS, 9, 10), vec![UnitType::Attacker]);
    // the fourth unit has not begun: the line was stopped when the third
    // left it
    assert!(line.deliver(20000 * MS, 9, 10).is_empty());
    assert_eq!(line.deliver(22000 * MS, 9, 10), vec![UnitType::Attacker]);
    assert_eq!(line.len(), 0);
    assert!(line.deliver(30000 * MS, 0, 10).is_empty());
}

#[test]
fn delivery_without_room_only_stops_the_line() {
    let mut line = AssemblyLine::default();
    line.enqueue(UnitType::Attacker);
    line.restart(0);
    assert!(line.deliver(1500 * MS, 10, 10).is_empty());
    // one and a half seconds are done; half a second is left
    assert!(line.deliver(5000 * MS, 3, 10).is_empty());
    assert!(line.deliver(5499 * MS, 3, 10).is_empty());
    assert_eq!(line.deliver(5500 * MS, 3, 10), vec![UnitType::Attacker]);
}

fn line_of(units: usize, time: u64) -> AssemblyLine {
    let mut line = AssemblyLine::default();
    for _ in 0..units {
        line.enqueue(UnitType::Attacker);
    }
    line.restart(time);
    line
}

#[test]
fn owner_of_several_lines_gets_no_more_than_it_has_room_for() {
    // three lines with two finished units each; lines 0 and 2 belong to
    // owner 1, who has room for three, line 1 to owner 0, who has room
    // for one
    let mut lines = vec![line_of(2, 0), line_of(2, 0), line_of(2, 0)];
    let owners = vec![1u8, 0, 1];
    let mut counts = vec![9u32, 7];
    let units = deliver_all(&mut lines, &owners, &mut counts, 4000 * MS, 10);
    assert_eq!(
        units,
        vec![
            (0, UnitType::Attacker),
            (0, UnitType::Attacker),
            (1, UnitType::Attacker),
            (2, UnitType::Attacker),
        ]
    );
    assert_eq!(counts, vec![10, 10]);
    assert_eq!(lines[0].len(), 0);
    assert_eq!(lines[1].len(), 1);
    assert_eq!(lines[2].len(), 1);
    // everybody is at the limit: nothing more is delivered
    assert!(deliver_all(&mut lines, &owners, &mut counts, 9000 * MS, 10).is_empty());
    assert_eq!(counts, vec![10, 10]);
    // with room again, what was finished is handed out
    counts[1] = 9;
    assert_eq!(
        deliver_all(&mut lines, &owners, &mut counts, 9000 * MS, 10),
        vec![(2, UnitType::Attacker)]
    );
    assert_eq!(counts, vec![10, 10]);
}

#[test]
fn no_lines_deliver_nothing() {
    let mut lines: Vec<AssemblyLine> = Vec::new();
    let mut counts = vec![3u32];
    assert!(deliver_all(&mut lines, &Vec::new(), &mut counts, 5, 10).is_empty());
    assert_eq!(counts, vec![3]);
}
