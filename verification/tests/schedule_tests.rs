use tcp_speeder::schedule::{pause_after, probe_next, probe_start, ProbeStep};

#[test]
fn pause_fills_the_interval() {
    assert_eq!(pause_after(0), Some(300));
    assert_eq!(pause_after(42), Some(258));
    assert_eq!(pause_after(299), Some(1));
    assert_eq!(pause_after(300), None);
    assert_eq!(pause_after(1000), None);
    assert_eq!(pause_after(-5), Some(305));
}

fn drive(answers: &[bool]) -> (ProbeStep, Vec<usize>) {
    let mut dropped = Vec::new();
    let mut step = probe_start(answers.len());
    while let ProbeStep::Check(i) = step {
        if !answers[i] {
            dropped.push(i);
        }
        step = probe_next(answers.len(), i, answers[i]);
    }
    (step, dropped)
}

#[test]
fn probe_picks_first_reachable() {
    assert_eq!(drive(&[false, true, true]), (ProbeStep::Chosen(1), vec![0]));
    assert_eq!(drive(&[true, false]), (ProbeStep::Chosen(0), vec![]));
}

#[test]
fn probe_with_no_reachable_candidate() {
    assert_eq!(drive(&[false, false]), (ProbeStep::Exhausted, vec![0, 1]));
    assert_eq!(drive(&[]), (ProbeStep::Exhausted, vec![]));
}
