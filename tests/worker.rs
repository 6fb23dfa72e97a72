use combo_gen::partition::{plan_run, WorkRange};
use combo_gen::space::{default_charset, Space};
use combo_gen::worker::Cursor;

fn run_plan_to_bytes(space: &Space, limit: Option<u64>, resume: u64, workers: usize) -> Vec<u8> {
    let plan = plan_run(space, limit, resume, workers);
    let mut all = Vec::new();
    for r in &plan.ranges {
        let mut cursor = Cursor::new(space, *r);
        let mut buf = Vec::new();
        while cursor.remaining() > 0 {
            cursor.fill(space, &mut buf, 16);
            all.extend_from_slice(&buf);
            buf.clear();
        }
    }
    all
}

#[test]
fn two_letter_alphabet_lines() {
    let space = Space::new(b"ab".to_vec(), 2).unwrap();
    assert_eq!(run_plan_to_bytes(&space, None, 0, 3), b"aa\nab\nba\nbb\n".to_vec());
}

#[test]
fn first_ten_of_printable_length_three() {
    let space = Space::new(default_charset(), 3).unwrap();
    let bytes = run_plan_to_bytes(&space, Some(10), 0, 4);
    assert_eq!(bytes.len(), 40);
    let lines: Vec<&[u8]> = bytes.split(|b| *b == b'\n').filter(|l| !l.is_empty()).collect();
    assert_eq!(lines.len(), 10);
    for (i, line) in lines.iter().enumerate() {
        assert_eq!(line.to_vec(), vec![b'!', b'!', 33 + i as u8]);
    }
}

#[test]
fn fill_stops_at_threshold() {
    let space = Space::new(b"ab".to_vec(), 3).unwrap();
    let mut cursor = Cursor::new(&space, WorkRange { start: 1, count: 6 });
    let mut buf = Vec::new();
    assert_eq!(cursor.fill(&space, &mut buf, 5), 2);
    assert_eq!(buf, b"aab\naba\n".to_vec());
    assert_eq!(cursor.next_index(), 3);
    assert_eq!(cursor.remaining(), 4);
    assert_eq!(cursor.fill(&space, &mut buf, 100), 4);
    assert_eq!(buf, b"aab\naba\nabb\nbaa\nbab\nbba\n".to_vec());
    assert_eq!(cursor.remaining(), 0);
    assert_eq!(cursor.fill(&space, &mut buf, 1000), 0);
}

#[test]
fn fill_on_a_full_buffer_renders_nothing() {
    let space = Space::new(b"ab".to_vec(), 2).unwrap();
    let mut cursor = Cursor::new(&space, WorkRange { start: 0, count: 4 });
    let mut buf = b"0123456789".to_vec();
    assert_eq!(cursor.fill(&space, &mut buf, 4), 0);
    assert_eq!(buf, b"0123456789".to_vec());
}

#[test]
fn fill_runs_to_the_last_index_of_the_space() {
    let space = Space::new(b"abc".to_vec(), 2).unwrap();
    let mut cursor = Cursor::new(&space, WorkRange { start: 7, count: 2 });
    let mut buf = Vec::new();
    assert_eq!(cursor.fill(&space, &mut buf, usize::MAX), 2);
    assert_eq!(buf, b"cb\ncc\n".to_vec());
    assert_eq!(cursor.next_index(), 9);
}

#[test]
fn collect_gives_combinations_without_newlines() {
    let space = Space::new(b"xyz".to_vec(), 2).unwrap();
    let mut cursor = Cursor::new(&space, WorkRange { start: 2, count: 5 });
    let items = cursor.collect(&space, 3);
    assert_eq!(items, vec![b"xz".to_vec(), b"yx".to_vec(), b"yy".to_vec()]);
    let rest = cursor.collect(&space, 10);
    assert_eq!(rest, vec![b"yz".to_vec(), b"zx".to_vec()]);
    assert_eq!(cursor.remaining(), 0);
}

#[test]
fn skip_advances_without_rendering() {
    let space = Space::new(b"ab".to_vec(), 4).unwrap();
    let mut cursor = Cursor::new(&space, WorkRange { start: 0, count: 16 });
    assert_eq!(cursor.skip(&space, 10), 10);
    assert_eq!(cursor.next_index(), 10);
    assert_eq!(cursor.collect(&space, 1), vec![b"baba".to_vec()]);
    assert_eq!(cursor.skip(&space, 100), 5);
    assert_eq!(cursor.remaining(), 0);
}

#[test]
fn workers_together_match_a_single_worker() {
    let space = Space::new(b"abcd".to_vec(), 4).unwrap();
    let single = run_plan_to_bytes(&space, None, 0, 1);
    for workers in [2usize, 3, 7, 300] {
        assert_eq!(run_plan_to_bytes(&space, None, 0, workers), single);
    }
}
