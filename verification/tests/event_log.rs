use arp::engine::EventLog;

#[test]
fn tail_is_in_order() {
    let mut log = EventLog::new(false);
    assert!(log.tail(5).is_empty());
    for i in 0..5 {
        log.push(format!("satır {i}"));
    }
    assert_eq!(log.tail(2), vec!["satır 3".to_string(), "satır 4".to_string()]);
    assert_eq!(log.tail(0), Vec::<String>::new());
    assert_eq!(log.tail(50).len(), 5);
    assert_eq!(log.tail(50)[0], "satır 0");
}

#[test]
fn only_the_last_two_hundred_lines_stay() {
    let mut log = EventLog::new(true);
    assert!(log.echoes());
    for i in 0..250 {
        log.push(format!("{i}"));
    }
    let all = log.tail(1000);
    assert_eq!(all.len(), 200);
    assert_eq!(all[0], "50");
    assert_eq!(all[199], "249");
    assert_eq!(log.tail(1), vec!["249".to_string()]);
    assert!(!EventLog::new(false).echoes());
}
