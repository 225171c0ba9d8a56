use arp::analyze::{
    active_region, count_clicks, find_gaps, interruptions, longest_gap, verdict, Gap, NoActiveSound, Region,
    Verdict,
};

#[test]
fn region_leaves_out_start_and_end() {
    let mut loud = vec![true; 5000];
    loud.extend(vec![false; 1000]);
    assert_eq!(active_region(&loud, 1000, 1000, 300), Ok(Region { start: 1000, end: 4700 }));
    assert_eq!(active_region(&loud, 1000, 0, 0), Ok(Region { start: 0, end: 5000 }));
    assert_eq!(active_region(&loud, 1000, 4700, 300), Err(NoActiveSound { active: 5000 }));
    assert_eq!(active_region(&loud, 1000, 0, 6000), Err(NoActiveSound { active: 5000 }));
    assert_eq!(active_region(&[false; 10], 1000, 0, 0), Err(NoActiveSound { active: 0 }));
    assert_eq!(active_region(&[], 48000, 0, 0), Err(NoActiveSound { active: 0 }));
    assert_eq!(active_region(&vec![true; 48000], 44100, 10, 0), Ok(Region { start: 441, end: 48000 }));
}

#[test]
fn gaps_of_five_milliseconds_are_listed() {
    let mut silent = vec![false; 100];
    for i in 10..15 {
        silent[i] = true;
    }
    for i in 40..44 {
        silent[i] = true;
    }
    for i in 90..100 {
        silent[i] = true;
    }
    let gaps = find_gaps(&silent, 1000);
    assert_eq!(gaps, vec![Gap { start: 10, len: 5 }, Gap { start: 90, len: 10 }]);
    assert_eq!(longest_gap(&gaps), 10);
    assert_eq!(longest_gap(&[]), 0);
    assert_eq!(find_gaps(&[true; 7], 1000), vec![Gap { start: 0, len: 7 }]);
    assert_eq!(find_gaps(&[true; 239], 48000), vec![]);
    assert_eq!(find_gaps(&[true; 240], 48000), vec![Gap { start: 0, len: 240 }]);
    assert_eq!(find_gaps(&[], 48000), vec![]);
}

#[test]
fn clicks_are_counted() {
    assert_eq!(count_clicks(&[true, false, true, true]), 3);
    assert_eq!(count_clicks(&[]), 0);
}

#[test]
fn verdicts() {
    assert_eq!(verdict(0, true, false), Verdict::Clean);
    assert_eq!(verdict(2, true, false), Verdict::Interrupted);
    assert_eq!(verdict(0, false, true), Verdict::NoSound);
    assert_eq!(verdict(2, false, true), Verdict::NoSound);
    assert_eq!(verdict(0, false, false), Verdict::Interrupted);
}

#[test]
fn interruptions_are_longer_than_the_limit() {
    let g = |start, len| Gap { start, len };
    let gaps = [g(0, 961), g(2000, 960), g(4000, 240), g(6000, 5000)];
    assert_eq!(interruptions(&gaps, 960), vec![g(0, 961), g(6000, 5000)]);
    assert_eq!(interruptions(&gaps, 0), gaps.to_vec());
    assert_eq!(interruptions(&gaps, 5000), vec![]);
    assert_eq!(interruptions(&[], 0), vec![]);
}
