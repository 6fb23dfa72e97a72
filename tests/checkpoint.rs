use combo_gen::checkpoint::Progress;
use combo_gen::partition::{plan_run, RunPlan};
use combo_gen::space::Space;
use combo_gen::worker::Cursor;

fn run_to_completion(space: &Space, plan: &RunPlan, progress: &mut Progress) -> Vec<u8> {
    let mut all = Vec::new();
    for (i, r) in plan.ranges.iter().enumerate() {
        let mut cursor = Cursor::new(space, *r);
        let mut buf = Vec::new();
        while cursor.remaining() > 0 {
            let n = cursor.fill(space, &mut buf, 8);
            all.extend_from_slice(&buf);
            buf.clear();
            assert!(progress.record(i, n));
        }
    }
    all
}

#[test]
fn resume_after_complete_run_gives_the_rest() {
    let space = Space::new(b"abc".to_vec(), 3).unwrap();
    let whole_plan = plan_run(&space, None, 0, 1);
    let mut whole_progress = Progress::new(&whole_plan);
    let whole = run_to_completion(&space, &whole_plan, &mut whole_progress);
    assert_eq!(whole_progress.checkpoint(), 27);

    let first_plan = plan_run(&space, Some(11), 0, 4);
    let mut first_progress = Progress::new(&first_plan);
    let first = run_to_completion(&space, &first_plan, &mut first_progress);
    let checkpoint = first_progress.checkpoint();
    assert_eq!(checkpoint, 11);

    let second_plan = plan_run(&space, Some(space.total()), checkpoint, 3);
    let mut second_progress = Progress::new(&second_plan);
    let second = run_to_completion(&space, &second_plan, &mut second_progress);
    assert_eq!(second_progress.checkpoint(), 27);

    let mut joined = first.clone();
    joined.extend_from_slice(&second);
    assert_eq!(joined, whole);
}

#[test]
fn checkpoint_waits_for_the_lowest_range() {
    let space = Space::new(b"ab".to_vec(), 4).unwrap();
    let plan = plan_run(&space, None, 2, 3);
    let mut progress = Progress::new(&plan);
    assert_eq!(progress.checkpoint(), 2);
    assert!(progress.record(2, plan.ranges[2].count));
    assert_eq!(progress.checkpoint(), 2);
    assert!(progress.record(0, 3));
    assert_eq!(progress.checkpoint(), 5);
    assert!(progress.record(0, plan.ranges[0].count - 3));
    assert_eq!(progress.checkpoint(), plan.ranges[1].start);
    assert!(progress.record(1, plan.ranges[1].count));
    assert_eq!(progress.checkpoint(), 16);
}

#[test]
fn record_refuses_what_does_not_fit() {
    let space = Space::new(b"ab".to_vec(), 2).unwrap();
    let plan = plan_run(&space, None, 0, 2);
    let mut progress = Progress::new(&plan);
    assert!(!progress.record(2, 1));
    assert!(!progress.record(0, 3));
    assert!(progress.record(0, 2));
    assert!(!progress.record(0, 1));
    assert_eq!(progress.checkpoint(), 2);
}

#[test]
fn checkpoint_of_an_empty_plan_is_its_resume_point() {
    let space = Space::new(b"ab".to_vec(), 2).unwrap();
    let plan = plan_run(&space, None, 9, 2);
    let progress = Progress::new(&plan);
    assert_eq!(progress.checkpoint(), 9);
    let zero = plan_run(&space, Some(0), 0, 2);
    assert_eq!(Progress::new(&zero).checkpoint(), 0);
}
