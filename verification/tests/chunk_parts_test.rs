use magic_string::chunk::Chunk;
use magic_string::error::Error;

#[test]
fn new_chunk_covers_the_whole_content() {
    let content: Vec<u8> = vec![1, 2, 3];
    let c = Chunk::new(&content);
    assert_eq!(c.start, 0);
    assert_eq!(c.end, 3);
    assert_eq!(c.len(), 3);
    assert_eq!(c.left, Some(vec![]));
    assert_eq!(c.right, Some(vec![]));
    assert_eq!(c.content, Some(&content[..]));
    assert!(!c.assert_left);
    assert!(!c.assert_right);
    assert_eq!(c.to_bytes(), vec![1, 2, 3]);
}

#[test]
fn new_chunk_of_nothing() {
    let content: Vec<u8> = vec![];
    let c = Chunk::new(&content);
    assert_eq!(c.len(), 0);
    assert_eq!(c.to_bytes(), Vec::<u8>::new());
}

#[test]
fn parts_come_left_content_right() {
    let content: Vec<u8> = vec![1, 2, 3];
    let mut c = Chunk::new(&content);
    assert_eq!(c.append(&[7, 8], false), Ok(()));
    assert_eq!(c.prepend(&[5, 6], false), Ok(()));
    {
        let mut it = c.iter();
        assert_eq!(it.next(), Some(&[5u8, 6][..]));
        assert_eq!(it.next(), Some(&[1u8, 2, 3][..]));
        assert_eq!(it.next(), Some(&[7u8, 8][..]));
        assert_eq!(it.next(), None);
        assert_eq!(it.next(), None);
    }
    assert_eq!(c.to_bytes(), vec![5, 6, 1, 2, 3, 7, 8]);
    assert_eq!(c.len(), 7);
}

#[test]
fn removed_parts_are_passed_over() {
    let content: Vec<u8> = vec![1, 2, 3];
    let mut c = Chunk::new(&content);
    assert_eq!(c.append(&[7], false), Ok(()));
    assert_eq!(c.prepend(&[5], false), Ok(()));
    assert_eq!(c.remove(false, true, false), Ok(()));
    {
        let mut it = c.iter();
        assert_eq!(it.next(), Some(&[5u8][..]));
        assert_eq!(it.next(), Some(&[7u8][..]));
        assert_eq!(it.next(), None);
    }
    assert_eq!(c.to_bytes(), vec![5, 7]);
    assert_eq!(c.len(), 2);
    assert_eq!(c.remove(true, false, true), Ok(()));
    {
        let mut it = c.iter();
        assert_eq!(it.next(), None);
    }
    assert_eq!(c.to_bytes(), Vec::<u8>::new());
    assert_eq!(c.len(), 0);
    assert_eq!((c.start, c.end), (0, 3));
}

#[test]
fn append_goes_to_the_end_and_prepend_to_the_front() {
    let content: Vec<u8> = vec![0];
    let mut c = Chunk::new(&content);
    assert_eq!(c.append(&[1], false), Ok(()));
    assert_eq!(c.append(&[2], false), Ok(()));
    assert_eq!(c.prepend(&[3], false), Ok(()));
    assert_eq!(c.prepend(&[4], false), Ok(()));
    assert_eq!(c.left, Some(vec![4, 3]));
    assert_eq!(c.right, Some(vec![1, 2]));
    assert_eq!(c.to_bytes(), vec![4, 3, 0, 1, 2]);
}

#[test]
fn the_other_end_of_each_buffer() {
    let content: Vec<u8> = vec![0];
    let mut c = Chunk::new(&content);
    assert_eq!(c.append_to_left(&[1], false), Ok(()));
    assert_eq!(c.append_to_left(&[2], false), Ok(()));
    assert_eq!(c.prepend_to_right(&[3], false), Ok(()));
    assert_eq!(c.prepend_to_right(&[4], false), Ok(()));
    assert_eq!(c.left, Some(vec![1, 2]));
    assert_eq!(c.right, Some(vec![4, 3]));
    assert_eq!(c.to_bytes(), vec![1, 2, 0, 4, 3]);
}

#[test]
fn essential_insertion_sets_the_guard_for_good() {
    let content: Vec<u8> = vec![0];
    let mut c = Chunk::new(&content);
    assert_eq!(c.append(&[1], true), Ok(()));
    assert!(c.assert_right);
    assert!(!c.assert_left);
    assert_eq!(c.append(&[2], false), Ok(()));
    assert!(c.assert_right);
    assert_eq!(c.prepend(&[3], false), Ok(()));
    assert!(!c.assert_left);
    assert_eq!(c.prepend(&[4], true), Ok(()));
    assert!(c.assert_left);
}

#[test]
fn check_refuses_only_what_is_asked_and_guarded() {
    let content: Vec<u8> = vec![0];
    let mut c = Chunk::new(&content);
    assert_eq!(c.check(true, true, true), Ok(()));
    assert_eq!(c.append(&[1], true), Ok(()));
    assert_eq!(c.check(true, true, false), Ok(()));
    assert_eq!(c.check(false, false, true), Err(Error::ContentShouldNotBeRemoved));
    assert_eq!(c.prepend(&[2], true), Ok(()));
    assert_eq!(c.check(true, false, false), Err(Error::ContentShouldNotBeRemoved));
    assert_eq!(c.check(false, true, false), Ok(()));
    assert_eq!(c.to_bytes(), vec![2, 0, 1]);
}

#[test]
fn refused_removal_removes_no_part() {
    let content: Vec<u8> = vec![0];
    let mut c = Chunk::new(&content);
    assert_eq!(c.prepend(&[2], false), Ok(()));
    assert_eq!(c.append(&[1], true), Ok(()));
    assert_eq!(c.remove(true, true, true), Err(Error::ContentShouldNotBeRemoved));
    assert_eq!(c.to_bytes(), vec![2, 0, 1]);
    assert_eq!(c.left, Some(vec![2]));
    assert_eq!(c.remove(true, true, false), Ok(()));
    assert_eq!(c.to_bytes(), vec![1]);
    assert_eq!(c.left, None);
    assert_eq!(c.content, None);
}

#[test]
fn removed_buffer_takes_nothing() {
    let content: Vec<u8> = vec![0];
    let mut c = Chunk::new(&content);
    assert_eq!(c.remove(true, false, true), Ok(()));
    assert_eq!(c.append(&[1], false), Ok(()));
    assert_eq!(c.prepend(&[2], false), Ok(()));
    assert_eq!(c.append_to_left(&[3], false), Ok(()));
    assert_eq!(c.prepend_to_right(&[4], false), Ok(()));
    assert_eq!(c.to_bytes(), vec![0]);
    assert_eq!(c.append(&[1], true), Err(Error::EssentialContentCannotBeAppended));
    assert_eq!(c.prepend(&[2], true), Err(Error::EssentialContentCannotBePrepended));
    assert_eq!(
        c.append_to_left(&[3], true),
        Err(Error::EssentialContentCannotBeAppended)
    );
    assert_eq!(
        c.prepend_to_right(&[4], true),
        Err(Error::EssentialContentCannotBePrepended)
    );
    assert_eq!(c.to_bytes(), vec![0]);
    assert_eq!(c.left, None);
    assert_eq!(c.right, None);
    assert!(!c.assert_left);
    assert!(!c.assert_right);
}

#[test]
fn chunks_are_the_same_by_range_and_content() {
    let content: Vec<u8> = vec![1, 2, 3];
    let same: Vec<u8> = vec![1, 2, 3];
    let other: Vec<u8> = vec![1, 2, 4];
    let mut a = Chunk::new(&content);
    let b = Chunk::new(&same);
    let c = Chunk::new(&other);
    assert!(a == b);
    assert!(a != c);
    assert_eq!(a.append(&[9], true), Ok(()));
    assert_eq!(a.remove(true, true, false), Ok(()));
    assert!(a == b);
    a.end = 2;
    assert!(a != b);
}
