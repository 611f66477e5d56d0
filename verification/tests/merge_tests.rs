use merge_sorted_files_rs::Heap;
use merge_sorted_files_rs::MergeError;

#[test]
fn test_single() {
    let mut heap = Heap::new();
    heap.add_reader(b"file1".to_vec(), b"bar\nfoo".to_vec());
    assert_eq!(heap.next().unwrap().unwrap(), b"bar".to_vec());
    assert_eq!(heap.next().unwrap().unwrap(), b"foo".to_vec());
    assert!(heap.next().is_none());
}

#[test]
fn test_single_ooo() {
    let mut heap = Heap::new();
    heap.add_reader(b"file1".to_vec(), b"foo\nbar".to_vec());
    let err = heap.next().unwrap().expect_err("Expected an error");
    assert_eq!(err, MergeError::OutOfOrder(b"file1".to_vec()));
    assert_eq!(
        err.message(),
        format!("Input lines in file [{}] out of order!", "file1").into_bytes()
    );
}

#[test]
fn test_multiple() {
    let mut heap = Heap::new();
    heap.add_reader(b"file1".to_vec(), b"a\nc".to_vec());
    heap.add_reader(b"file2".to_vec(), b"b\nd".to_vec());
    heap.add_reader(b"file3".to_vec(), b"".to_vec());
    assert_eq!(heap.next().unwrap().unwrap(), b"a".to_vec());
    assert_eq!(heap.next().unwrap().unwrap(), b"b".to_vec());
    assert_eq!(heap.next().unwrap().unwrap(), b"c".to_vec());
    assert_eq!(heap.next().unwrap().unwrap(), b"d".to_vec());
    assert!(heap.next().is_none());
}

#[test]
fn test_multiple_with_dupes() {
    let mut heap = Heap::new();
    heap.add_reader(b"file1".to_vec(), b"a\nc".to_vec());
    heap.add_reader(b"file2".to_vec(), b"b\nd".to_vec());
    heap.add_reader(b"file3".to_vec(), b"b\nc".to_vec());
    assert_eq!(heap.next().unwrap().unwrap(), b"a".to_vec());
    assert_eq!(heap.next().unwrap().unwrap(), b"b".to_vec());
    assert_eq!(heap.next().unwrap().unwrap(), b"b".to_vec());
    assert_eq!(heap.next().unwrap().unwrap(), b"c".to_vec());
    assert_eq!(heap.next().unwrap().unwrap(), b"c".to_vec());
    assert_eq!(heap.next().unwrap().unwrap(), b"d".to_vec());
    assert!(heap.next().is_none());
}

#[test]
fn test_multiple_with_repeated_names() {
    let mut heap = Heap::new();
    heap.add_reader(b"file1".to_vec(), b"a\nc".to_vec());
    heap.add_reader(b"file1".to_vec(), b"b\nd".to_vec());
    assert_eq!(heap.next().unwrap().unwrap(), b"a".to_vec());
    assert_eq!(heap.next().unwrap().unwrap(), b"b".to_vec());
    assert_eq!(heap.next().unwrap().unwrap(), b"c".to_vec());
    assert_eq!(heap.next().unwrap().unwrap(), b"d".to_vec());
    assert!(heap.next().is_none());
}

#[test]
fn test_multiple_empty() {
    let mut heap = Heap::new();
    heap.add_reader(b"file1".to_vec(), b"".to_vec());
    heap.add_reader(b"file1".to_vec(), b"".to_vec());
    assert!(heap.next().is_none());
}

#[test]
fn test_no_streams_at_all() {
    let mut heap = Heap::new();
    assert!(heap.next().is_none());
    let (lines, err) = heap.collect_lines();
    assert!(lines.is_empty());
    assert!(err.is_none());
}

#[test]
fn test_exhaustion_is_final() {
    let mut heap = Heap::new();
    heap.add_reader(b"file1".to_vec(), b"x".to_vec());
    assert_eq!(heap.next().unwrap().unwrap(), b"x".to_vec());
    assert!(heap.next().is_none());
    assert!(heap.next().is_none());
}

#[test]
fn test_add_reader_returns_first_line() {
    let mut heap = Heap::new();
    assert_eq!(heap.add_reader(b"file1".to_vec(), b"a\nc".to_vec()), Some(b"a".to_vec()));
    assert_eq!(heap.add_reader(b"file2".to_vec(), b"".to_vec()), None);
}

#[test]
fn test_collect_lines_sorted_streams() {
    let mut heap = Heap::new();
    heap.add_reader(b"file1".to_vec(), b"a\nc".to_vec());
    heap.add_reader(b"file2".to_vec(), b"b\nd".to_vec());
    let (lines, err) = heap.collect_lines();
    assert_eq!(
        lines,
        vec![b"a".to_vec(), b"b".to_vec(), b"c".to_vec(), b"d".to_vec()]
    );
    assert!(err.is_none());
}

#[test]
fn test_collect_lines_keeps_prefix_before_error() {
    let mut heap = Heap::new();
    heap.add_reader(b"good".to_vec(), b"a\nz".to_vec());
    heap.add_reader(b"bad".to_vec(), b"b\na".to_vec());
    let (lines, err) = heap.collect_lines();
    assert_eq!(lines, vec![b"a".to_vec()]);
    assert_eq!(err, Some(MergeError::OutOfOrder(b"bad".to_vec())));
}

#[test]
fn test_error_names_offending_stream_only() {
    let mut heap = Heap::new();
    heap.add_reader(b"sorted".to_vec(), b"m\nn".to_vec());
    heap.add_reader(b"unsorted".to_vec(), b"a\nz\nb".to_vec());
    assert_eq!(heap.next().unwrap().unwrap(), b"a".to_vec());
    assert_eq!(heap.next().unwrap().unwrap(), b"m".to_vec());
    assert_eq!(heap.next().unwrap().unwrap(), b"n".to_vec());
    let err = heap.next().unwrap().expect_err("Expected an error");
    assert_eq!(err, MergeError::OutOfOrder(b"unsorted".to_vec()));
    assert!(heap.next().is_none());
}

#[test]
fn test_trailing_terminator_stripped() {
    let mut heap = Heap::new();
    heap.add_reader(b"file1".to_vec(), b"a\nb\n".to_vec());
    assert_eq!(heap.next().unwrap().unwrap(), b"a".to_vec());
    assert_eq!(heap.next().unwrap().unwrap(), b"b".to_vec());
    assert!(heap.next().is_none());
}

#[test]
fn test_empty_lines_are_lines() {
    let mut heap = Heap::new();
    assert_eq!(heap.add_reader(b"file1".to_vec(), b"\n\na".to_vec()), Some(b"".to_vec()));
    assert_eq!(heap.next().unwrap().unwrap(), b"".to_vec());
    assert_eq!(heap.next().unwrap().unwrap(), b"".to_vec());
    assert_eq!(heap.next().unwrap().unwrap(), b"a".to_vec());
    assert!(heap.next().is_none());
}

#[test]
fn test_message_is_exact() {
    let err = MergeError::OutOfOrder(b"logs/2.txt".to_vec());
    assert_eq!(err.message(), b"Input lines in file [logs/2.txt] out of order!".to_vec());
}
