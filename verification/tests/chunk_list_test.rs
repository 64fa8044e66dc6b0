use magic_string::chunk_list::ChunkList;
use magic_string::error::Error;

fn ranges(cl: &ChunkList) -> Vec<(usize, usize)> {
    let mut out = Vec::new();
    let mut it = cl.iter();
    while let Some(c) = it.next() {
        out.push((c.start, c.end));
    }
    out
}

#[test]
fn new_list_has_one_chunk() {
    let content: Vec<u8> = vec![1, 2, 3, 4];
    let cl = ChunkList::new(&content);
    assert_eq!(ranges(&cl), vec![(0, 4)]);
}

#[test]
fn split_inside_a_chunk() {
    let content: Vec<u8> = vec![1, 2, 3, 4];
    let mut cl = ChunkList::new(&content);
    assert_eq!(cl.split(1), Ok(0));
    assert_eq!(ranges(&cl), vec![(0, 1), (1, 4)]);
    assert_eq!(cl.split(3), Ok(1));
    assert_eq!(ranges(&cl), vec![(0, 1), (1, 3), (3, 4)]);
}

#[test]
fn split_twice_gives_the_same_two_chunks() {
    let content: Vec<u8> = vec![1, 2, 3, 4];
    for offset in 0..=4 {
        let mut cl = ChunkList::new(&content);
        let first = cl.split(offset);
        let after_first = ranges(&cl);
        let second = cl.split(offset);
        assert_eq!(first, second);
        assert_eq!(ranges(&cl), after_first);
    }
}

#[test]
fn slice_twice_gives_the_same_two_chunks() -> Result<(), Error> {
    let content: Vec<u8> = vec![1, 2, 3, 4];
    let mut cl = ChunkList::new(&content);
    let once = {
        let (a, b) = cl.slice(2)?;
        ((a.start, a.end), (b.start, b.end))
    };
    let twice = {
        let (a, b) = cl.slice(2)?;
        ((a.start, a.end), (b.start, b.end))
    };
    assert_eq!(once, ((0, 2), (2, 4)));
    assert_eq!(once, twice);
    assert_eq!(ranges(&cl), vec![(0, 2), (2, 4)]);
    Ok(())
}

#[test]
fn split_at_the_two_ends() {
    let content: Vec<u8> = vec![1, 2, 3, 4];
    let mut cl = ChunkList::new(&content);
    assert_eq!(cl.split(0), Ok(0));
    assert_eq!(ranges(&cl), vec![(0, 0), (0, 4)]);
    assert_eq!(cl.split(4), Ok(1));
    assert_eq!(ranges(&cl), vec![(0, 0), (0, 4), (4, 4)]);
    assert_eq!(cl.split(0), Ok(0));
    assert_eq!(cl.split(4), Ok(1));
    assert_eq!(ranges(&cl), vec![(0, 0), (0, 4), (4, 4)]);
}

#[test]
fn split_of_empty_content() {
    let content: Vec<u8> = vec![];
    let mut cl = ChunkList::new(&content);
    assert_eq!(cl.split(0), Ok(0));
    assert_eq!(ranges(&cl), vec![(0, 0), (0, 0)]);
    assert_eq!(cl.split(0), Ok(0));
    assert_eq!(ranges(&cl), vec![(0, 0), (0, 0)]);
    assert_eq!(cl.split(1), Err(Error::IndexOutOfBoundError(1)));
}

#[test]
fn split_out_of_bounds() {
    let content: Vec<u8> = vec![1, 2, 3, 4];
    let mut cl = ChunkList::new(&content);
    assert_eq!(cl.split(5), Err(Error::IndexOutOfBoundError(5)));
    assert!(matches!(cl.slice(9), Err(Error::IndexOutOfBoundError(9))));
    assert_eq!(ranges(&cl), vec![(0, 4)]);
}

#[test]
fn split_moves_the_right_buffer_and_its_guard() -> Result<(), Error> {
    let content: Vec<u8> = vec![1, 2, 3, 4];
    let mut cl = ChunkList::new(&content);
    if let Some(c) = cl.peek_mut() {
        assert_eq!(c.append(&[9], true), Ok(()));
        assert_eq!(c.prepend(&[8], true), Ok(()));
    }
    let (a, b) = cl.slice(2)?;
    assert_eq!(a.left, Some(vec![8]));
    assert!(a.assert_left);
    assert_eq!(a.right, Some(vec![]));
    assert!(!a.assert_right);
    assert_eq!(a.content, Some(&content[0..2]));
    assert_eq!(b.left, Some(vec![]));
    assert!(!b.assert_left);
    assert_eq!(b.right, Some(vec![9]));
    assert!(b.assert_right);
    assert_eq!(b.content, Some(&content[2..4]));
    Ok(())
}

#[test]
fn split_of_a_removed_chunk() -> Result<(), Error> {
    let content: Vec<u8> = vec![1, 2, 3, 4];
    let mut cl = ChunkList::new(&content);
    if let Some(c) = cl.peek_mut() {
        assert_eq!(c.remove(true, true, true), Ok(()));
    }
    let (a, b) = cl.slice(2)?;
    assert_eq!(a.left, None);
    assert_eq!(a.content, None);
    assert_eq!(a.right, Some(vec![]));
    assert_eq!(b.left, Some(vec![]));
    assert_eq!(b.content, None);
    assert_eq!(b.right, None);
    assert_eq!((a.start, a.end, b.start, b.end), (0, 2, 2, 4));
    Ok(())
}

#[test]
fn lookup_for_reading_excludes_the_end_of_a_chunk() {
    let content: Vec<u8> = vec![1, 2, 3, 4];
    let mut cl = ChunkList::new(&content);
    assert_eq!(cl.split(2), Ok(0));
    assert_eq!(cl.get_chunk_at(2).map(|c| (c.start, c.end)), Some((2, 4)));
    assert_eq!(cl.get_chunk_at(4).map(|c| (c.start, c.end)), None);
    assert_eq!(cl.get_chunk_at(7).map(|c| (c.start, c.end)), None);
}

#[test]
fn lookup_for_cutting_includes_the_end_of_a_chunk() {
    let content: Vec<u8> = vec![1, 2, 3, 4];
    let mut cl = ChunkList::new(&content);
    assert_eq!(cl.split(2), Ok(0));
    assert_eq!(cl.get_mut_chunk_at(1).map(|c| (c.start, c.end)), Some((0, 2)));
    assert_eq!(cl.get_mut_chunk_at(2).map(|c| (c.start, c.end)), Some((0, 2)));
    assert_eq!(cl.get_mut_chunk_at(3).map(|c| (c.start, c.end)), Some((2, 4)));
    assert_eq!(cl.get_mut_chunk_at(4).map(|c| (c.start, c.end)), Some((2, 4)));
    assert_eq!(cl.get_mut_chunk_at(5).map(|c| (c.start, c.end)), None);
}

#[test]
fn changes_through_a_handed_out_chunk_stay() {
    let content: Vec<u8> = vec![1, 2, 3, 4];
    let mut cl = ChunkList::new(&content);
    assert_eq!(cl.split(2), Ok(0));
    if let Some(c) = cl.get_mut_chunk_at(3) {
        assert_eq!(c.prepend(&[9], false), Ok(()));
    }
    assert_eq!(cl.get_chunk_at(3).map(|c| c.to_bytes()), Some(vec![9, 3, 4]));
    assert_eq!(cl.peek().map(|c| c.to_bytes()), Some(vec![1, 2]));
}

#[test]
fn iter_mut_hands_out_every_chunk_in_order() {
    let content: Vec<u8> = vec![1, 2, 3, 4];
    let mut cl = ChunkList::new(&content);
    assert_eq!(cl.split(1), Ok(0));
    assert_eq!(cl.split(3), Ok(1));
    let mut n: u8 = 0;
    for c in cl.iter_mut().iter_mut() {
        assert_eq!(c.append(&[100 + n], false), Ok(()));
        n += 1;
    }
    assert_eq!(n, 3);
    let mut it = cl.iter();
    assert_eq!(it.next().map(|c| c.to_bytes()), Some(vec![1, 100]));
    assert_eq!(it.next().map(|c| c.to_bytes()), Some(vec![2, 3, 101]));
    assert_eq!(it.next().map(|c| c.to_bytes()), Some(vec![4, 102]));
    assert_eq!(it.next().map(|c| c.to_bytes()), None);
}

#[test]
fn range_removal_keeps_the_outer_buffers() {
    let content: Vec<u8> = vec![1, 2, 3, 4, 5, 6];
    let mut cl = ChunkList::new(&content);
    assert_eq!(cl.split(2), Ok(0));
    assert_eq!(cl.split(4), Ok(1));
    for c in cl.iter_mut().iter_mut() {
        assert_eq!(c.prepend(&[10], false), Ok(()));
        assert_eq!(c.append(&[20], false), Ok(()));
    }
    assert_eq!(cl.check_range(0, 3), Ok(()));
    assert_eq!(cl.remove_range(0, 3), Ok(()));
    let mut it = cl.iter();
    assert_eq!(it.next().map(|c| c.to_bytes()), Some(vec![10]));
    assert_eq!(it.next().map(|c| c.to_bytes()), Some(vec![]));
    assert_eq!(it.next().map(|c| c.to_bytes()), Some(vec![20]));
    assert_eq!(it.next().map(|c| c.to_bytes()), None);
}

#[test]
fn range_removal_of_one_chunk_keeps_both_buffers() {
    let content: Vec<u8> = vec![1, 2, 3, 4, 5, 6];
    let mut cl = ChunkList::new(&content);
    assert_eq!(cl.split(2), Ok(0));
    assert_eq!(cl.split(4), Ok(1));
    for c in cl.iter_mut().iter_mut() {
        assert_eq!(c.prepend(&[10], true), Ok(()));
        assert_eq!(c.append(&[20], true), Ok(()));
    }
    assert_eq!(cl.remove_range(1, 2), Ok(()));
    assert_eq!(cl.get_chunk_at(2).map(|c| c.to_bytes()), Some(vec![10, 20]));
    assert_eq!(cl.get_chunk_at(0).map(|c| c.to_bytes()), Some(vec![10, 1, 2, 20]));
}

#[test]
fn range_removal_is_all_or_nothing() {
    let content: Vec<u8> = vec![1, 2, 3, 4, 5, 6];
    let mut cl = ChunkList::new(&content);
    assert_eq!(cl.split(2), Ok(0));
    assert_eq!(cl.split(4), Ok(1));
    if let Some(c) = cl.get_mut_chunk_at(5) {
        assert_eq!(c.prepend(&[9], true), Ok(()));
    }
    assert_eq!(cl.check_range(0, 3), Err(Error::ContentShouldNotBeRemoved));
    assert_eq!(cl.remove_range(0, 3), Err(Error::ContentShouldNotBeRemoved));
    let mut it = cl.iter();
    assert_eq!(it.next().map(|c| c.to_bytes()), Some(vec![1, 2]));
    assert_eq!(it.next().map(|c| c.to_bytes()), Some(vec![3, 4]));
    assert_eq!(it.next().map(|c| c.to_bytes()), Some(vec![9, 5, 6]));
    assert_eq!(cl.check_range(0, 2), Ok(()));
    assert_eq!(cl.check_range(2, 3), Ok(()));
    assert_eq!(cl.check_range(3, 1), Ok(()));
    assert_eq!(cl.remove_range(3, 1), Ok(()));
}

#[test]
fn range_removal_beyond_the_list() {
    let content: Vec<u8> = vec![1, 2, 3, 4, 5, 6];
    let mut cl = ChunkList::new(&content);
    assert_eq!(cl.split(2), Ok(0));
    assert_eq!(cl.split(4), Ok(1));
    for c in cl.iter_mut().iter_mut() {
        assert_eq!(c.prepend(&[10], false), Ok(()));
        assert_eq!(c.append(&[20], false), Ok(()));
    }
    assert_eq!(cl.check_range(1, 99), Ok(()));
    assert_eq!(cl.remove_range(1, 99), Ok(()));
    let mut it = cl.iter();
    assert_eq!(it.next().map(|c| c.to_bytes()), Some(vec![10, 1, 2, 20]));
    assert_eq!(it.next().map(|c| c.to_bytes()), Some(vec![10]));
    assert_eq!(it.next().map(|c| c.to_bytes()), Some(vec![]));
    assert_eq!(it.next().map(|c| c.to_bytes()), None);
    assert_eq!(cl.remove_range(7, 9), Ok(()));
}
