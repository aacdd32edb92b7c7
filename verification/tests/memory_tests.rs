use desktop_utils::memory::Memory;
use desktop_utils::observer::AsyncWriteObserver;

fn lines_of(m: &Memory) -> Vec<Vec<u8>> {
    m.lines().clone()
}

#[test]
fn new_memory_is_empty() {
    let m = Memory::new(3);
    assert!(m.lines().is_empty());
    assert!(m.pending().is_empty());
}

#[test]
fn write_splits_complete_lines_and_keeps_the_tail() {
    let mut m = Memory::new(4);
    m.write(b"a\nbc");
    assert_eq!(lines_of(&m), vec![b"a\n".to_vec()]);
    assert_eq!(m.pending().clone(), b"bc".to_vec());
    m.write(b"d\ne");
    assert_eq!(lines_of(&m), vec![b"a\n".to_vec(), b"bcd\n".to_vec()]);
    assert_eq!(m.pending().clone(), b"e".to_vec());
}

#[test]
fn memory_keeps_only_the_latest_lines() {
    let mut m = Memory::new(2);
    m.write(b"one\ntwo\nthree\nfour\n");
    assert_eq!(lines_of(&m), vec![b"three\n".to_vec(), b"four\n".to_vec()]);
    assert!(m.pending().is_empty());
}

#[test]
fn append_line_drops_the_oldest_when_full() {
    let mut m = Memory::new(2);
    m.append_line(b"x\n".to_vec());
    m.append_line(b"y\n".to_vec());
    m.append_line(b"z\n".to_vec());
    assert_eq!(lines_of(&m), vec![b"y\n".to_vec(), b"z\n".to_vec()]);
}

#[test]
fn chunked_writes_equal_one_write() {
    let data: &[u8] = b"alpha\nbeta\n\ngamma\ndel";
    let mut whole = Memory::new(3);
    whole.write(data);
    for cut in 0..=data.len() {
        let mut parts = Memory::new(3);
        parts.write(&data[..cut]);
        parts.write(&data[cut..]);
        assert_eq!(lines_of(&parts), lines_of(&whole));
        assert_eq!(parts.pending().clone(), whole.pending().clone());
    }
    assert_eq!(
        lines_of(&whole),
        vec![b"beta\n".to_vec(), b"\n".to_vec(), b"gamma\n".to_vec()]
    );
    assert_eq!(whole.pending().clone(), b"del".to_vec());
}

#[test]
fn empty_lines_are_lines() {
    let mut m = Memory::new(5);
    m.write(b"\n\n");
    assert_eq!(lines_of(&m), vec![b"\n".to_vec(), b"\n".to_vec()]);
}

#[test]
fn zero_capacity_memory_takes_bytes_without_newline() {
    let mut m = Memory::new(0);
    m.write(b"no newline here");
    assert!(m.lines().is_empty());
    assert_eq!(m.pending().clone(), b"no newline here".to_vec());
}

#[test]
fn flush_and_shutdown_change_nothing() {
    let mut m = Memory::new(1);
    m.write(b"k\nrest");
    m.flush();
    m.shutdown();
    assert_eq!(lines_of(&m), vec![b"k\n".to_vec()]);
    assert_eq!(m.pending().clone(), b"rest".to_vec());
}

#[test]
fn lines_and_tail_give_back_the_stream() {
    let data: &[u8] = b"first\nsecond\n\nthird";
    let mut m = Memory::new(100);
    m.write(data);
    let mut joined: Vec<u8> = lines_of(&m).concat();
    joined.extend_from_slice(m.pending());
    assert_eq!(joined, data.to_vec());
}

#[test]
fn each_line_ends_with_its_only_newline() {
    let mut m = Memory::new(100);
    m.write(b"a\nbb\n\nccc\ntail");
    for line in lines_of(&m) {
        assert_eq!(line.last(), Some(&b'\n'));
        assert!(!line[..line.len() - 1].contains(&b'\n'));
    }
    assert!(!m.pending().contains(&b'\n'));
}

#[test]
fn a_run_of_appends_keeps_the_most_recent() {
    for n in 0..6usize {
        let mut m = Memory::new(3);
        let all: Vec<Vec<u8>> = (0..n).map(|i| vec![b'0' + i as u8, b'\n']).collect();
        for l in &all {
            m.append_line(l.clone());
        }
        let keep = n.min(3);
        assert_eq!(lines_of(&m), all[n - keep..].to_vec());
    }
}
