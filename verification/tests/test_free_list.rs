use mwgc::free_list::{FreeBlock, FreeBlockPtr, FreeList, FreeListSpan, FREE_BLOCK_SIZE};
use mwgc::memory::Memory;

fn assert_chain(f: &FreeList, expected: &[usize]) {
    let mut i = 0;
    let mut it = f.iter();
    while let Some(block) = it.next(f) {
        assert!(i < expected.len(), "{:?} != {:?}", f.debug_chain(), expected);
        assert_eq!(expected[i], block.size, "{:?} != {:?}", f.debug_chain(), expected);
        i += 1;
    }
    assert!(i == expected.len(), "{:?} != {:?}", f.debug_chain(), expected);
}

fn assert_span_chain(f: &FreeList, expected: &[usize]) {
    let mut i = 0;
    let mut it = f.iter_span();
    while let Some(span) = it.next(f) {
        assert!(i < expected.len(), "{:?} != {:?}", f.debug_chain(), expected);
        let size = span.ptr.block(f).map(|p| p.size).unwrap_or(0);
        assert_eq!(expected[i], size, "{:?} != {:?}", f.debug_chain(), expected);
        i += 1;
    }
    assert!(i == expected.len(), "{:?} != {:?}", f.debug_chain(), expected);
}

#[test]
fn free_list_allocate() {
    let data: Vec<u8> = vec![0; 256];
    let memory = Memory::new(data);
    let start = memory.start();
    let mut f = FreeList::new(memory);
    let origin = f.first_available();
    assert_eq!(origin, start);
    let alloc = f.allocate(120);
    assert!(alloc.is_some());
    if let Some(m) = alloc {
        assert_eq!(origin, m.start());
        assert_eq!(m.len(), 120);
    }
}

#[test]
fn free_list_allocate_multiple() {
    let data: Vec<u8> = vec![0; 256];
    let mut f = FreeList::new(Memory::new(data));
    let origin = f.first_available();
    let m1 = f.allocate(64).unwrap();
    let m2 = f.allocate(32).unwrap();
    let m3 = f.allocate(32).unwrap();
    assert_eq!(m1.start(), origin);
    assert_eq!(m2.start(), m1.offset(64));
    assert_eq!(m3.start(), m1.offset(96));
    assert_eq!(f.first_available(), m1.offset(128));
}

#[test]
fn free_list_allocate_to_exhaustion() {
    let data: Vec<u8> = vec![0; 256];
    let mut f = FreeList::new(Memory::new(data));
    let first_addr = f.first_available();
    let m1 = f.allocate(128).unwrap();
    let m2 = f.allocate(128).unwrap();
    let m3 = f.allocate(16);
    assert_eq!(m1.start(), first_addr);
    assert_eq!(m2.start(), m1.offset(128));
    assert!(m3.is_none());
    assert_chain(&f, &[]);
    assert_span_chain(&f, &[0]);
}

#[test]
fn free_list_retire_first() {
    let data: Vec<u8> = vec![0; 256];
    let mut f = FreeList::new(Memory::new(data));
    let origin = f.first_available();
    let m1 = f.allocate(64);
    assert!(m1.is_some());
    if let Some(m) = m1 {
        f.retire(m);
        // the free block of 64 should have been merged back to the front
        // of the list as a single block.
        assert_chain(&f, &[256]);
        assert_span_chain(&f, &[256, 0]);
        assert_eq!(f.first_available(), origin);
    }
}

#[test]
fn free_list_retire_last() {
    let data: Vec<u8> = vec![0; 256];
    let (m1, m2) = Memory::new(data).split_at(128);
    let (_, m4) = m2.split_at(64);

    let mut f = FreeList::new(m1);
    let origin = f.first_available();
    f.retire(m4);
    assert_chain(&f, &[128, 64]);
    assert_span_chain(&f, &[128, 64, 0]);
    assert_eq!(f.first_available(), origin);
}

#[test]
fn free_list_retire_middle() {
    let data: Vec<u8> = vec![0; 256];
    let (m1, m2) = Memory::new(data).split_at(128);
    let (m3, m4) = m2.split_at(64);

    let mut f = FreeList::new(m1);
    let origin = f.first_available();
    f.retire(m4);
    assert_chain(&f, &[128, 64]);
    assert_eq!(f.first_available(), origin);

    f.retire(m3);
    assert_chain(&f, &[256]);
    assert_span_chain(&f, &[256, 0]);
    assert_eq!(f.first_available(), origin);
}

#[test]
fn free_list_hands_out_the_whole_region_when_the_rest_cannot_hold_a_header() {
    let mut f = FreeList::new(Memory::new(vec![0; 64]));
    let m = f.allocate(64 - FREE_BLOCK_SIZE + 1).unwrap();
    assert_eq!(m.len(), 64);
    assert_eq!(f.debug_chain(), Vec::<usize>::new());
    assert_eq!(f.first_available(), 0);
    assert_eq!(f.bytes(), 0);
}

#[test]
fn free_list_splits_when_the_rest_holds_a_header() {
    let mut f = FreeList::new(Memory::new(vec![0; 64]));
    let origin = f.first_available();
    let m = f.allocate(64 - FREE_BLOCK_SIZE).unwrap();
    assert_eq!(m.len(), 48);
    assert_eq!(f.debug_chain(), vec![16]);
    assert_eq!(f.first_available(), origin + 48);
    assert_eq!(f.bytes(), 16);
}

#[test]
fn free_list_allocates_first_fit() {
    let (m1, rest) = Memory::new(vec![0; 256]).split_at(32);
    let (_, rest) = rest.split_at(32);
    let (m3, rest) = rest.split_at(64);
    let (_, m5) = rest.split_at(32);
    let mut f = FreeList::new(m1);
    f.retire(m5);
    f.retire(m3);
    assert_eq!(f.debug_chain(), vec![32, 64, 96]);
    assert_eq!(f.bytes(), 192);
    let origin = f.first_available();
    let m = f.allocate(48).unwrap();
    assert_eq!(m.start(), origin + 64);
    assert_eq!(m.len(), 48);
    assert_eq!(f.debug_chain(), vec![32, 16, 96]);
    assert!(f.allocate(97).is_none());
    assert_eq!(f.debug_chain(), vec![32, 16, 96]);
}

#[test]
fn free_list_retire_undoes_allocate() {
    let (m1, rest) = Memory::new(vec![0; 256]).split_at(64);
    let (_, m3) = rest.split_at(64);
    let mut f = FreeList::new(m1);
    f.retire(m3);
    assert_eq!(f.debug_chain(), vec![64, 128]);
    let origin = f.first_available();
    let m = f.allocate(100).unwrap();
    assert_eq!(f.debug_chain(), vec![64, 28]);
    f.retire(m);
    assert_eq!(f.debug_chain(), vec![64, 128]);
    assert_eq!(f.first_available(), origin);
}

#[test]
fn free_list_retire_in_front_merges_with_the_next_region() {
    let (m1, m2) = Memory::new(vec![0; 128]).split_at(64);
    let start = m1.start();
    let mut f = FreeList::new(m2);
    f.retire(m1);
    assert_eq!(f.debug_chain(), vec![128]);
    assert_eq!(f.first_available(), start);
}

#[test]
fn free_list_of_a_span_too_small_for_a_header_is_empty() {
    let f = FreeList::new(Memory::new(vec![0; 15]));
    assert_eq!(f.debug_chain(), Vec::<usize>::new());
    assert_eq!(f.first_available(), 0);
}

#[test]
fn free_list_links_accept_a_span_only_at_its_place() {
    let (m1, rest) = Memory::new(vec![0; 256]).split_at(64);
    let (m2, rest) = rest.split_at(64);
    let (m3, _) = rest.split_at(64);
    let m2_start = m2.start();
    let mut f = FreeList::new(m1);
    f.retire(m3);
    // not in front of the first region, and the first region ends below it
    let head = FreeBlockPtr { index: 0 };
    let back = head.try_insert_before(&mut f, m2);
    assert!(back.is_some());
    let m2 = back.unwrap();
    assert_eq!(m2.start(), m2_start);
    assert_eq!(f.debug_chain(), vec![64, 64]);
    // the first region ends where it starts: it joins it, and the next region too
    assert!(head.try_insert_after(&mut f, m2).is_none());
    assert_eq!(f.debug_chain(), vec![192]);
}

#[test]
fn free_list_span_inserts_without_a_search() {
    let (m1, rest) = Memory::new(vec![0; 256]).split_at(64);
    let (_, rest) = rest.split_at(32);
    let (m3, rest) = rest.split_at(32);
    let (_, m5) = rest.split_at(64);
    let mut f = FreeList::new(m1);
    f.retire(m5);
    assert_eq!(f.debug_chain(), vec![64, 64]);
    let first = FreeListSpan { insert_point: FreeBlockPtr { index: 0 }, ptr: FreeBlockPtr { index: 0 } };
    let second = first.next(&f).unwrap();
    assert_eq!(second, FreeListSpan { insert_point: FreeBlockPtr { index: 0 }, ptr: FreeBlockPtr { index: 1 } });
    second.insert(&mut f, m3);
    assert_eq!(f.debug_chain(), vec![64, 32, 64]);
    let last = second.next(&f).unwrap().next(&f).unwrap();
    assert_eq!(last.ptr.block(&f), None);
    assert_eq!(last.next(&f), None);
}

#[test]
fn free_block_merges_with_the_region_that_it_touches() {
    let mut block = FreeBlock { start: 4096, size: 32 };
    assert_eq!(block.start(), 4096);
    assert_eq!(block.end(), 4128);
    assert!(!block.check_merge_next(Some(FreeBlock { start: 4144, size: 16 })));
    assert_eq!(block, FreeBlock { start: 4096, size: 32 });
    assert!(block.check_merge_next(Some(FreeBlock { start: 4128, size: 16 })));
    assert_eq!(block, FreeBlock { start: 4096, size: 48 });
    assert!(!block.check_merge_next(None));
    let m = block.as_memory();
    assert_eq!((m.start(), m.len()), (4096, 48));
    assert_eq!(FreeBlock::from_memory(m), block);
}

#[test]
fn free_block_split_and_merge() {
    let mut block = FreeBlock { start: 4096, size: 64 };
    let rest = block.split(48);
    assert_eq!(block, FreeBlock { start: 4096, size: 48 });
    assert_eq!(rest, FreeBlock { start: 4144, size: 16 });
    assert!(!block.merge(&Memory::from_addresses(4160, 4176)));
    assert_eq!(block, FreeBlock { start: 4096, size: 48 });
    assert!(block.merge(&Memory::from_addresses(4144, 4176)));
    assert_eq!(block, FreeBlock { start: 4096, size: 80 });
}

#[test]
fn free_block_allocate() {
    let data: Vec<u8> = vec![0; 256];
    let memory = Memory::new(data);
    let start = memory.start();
    let mut f = FreeList::new(memory);
    let origin = f.first_available();
    assert_eq!(origin, start);
    let alloc = f.allocate(120);
    assert!(alloc.is_some());
    if let Some(memory) = alloc {
        assert_eq!(origin, memory.start());
        assert_eq!(memory.len(), 120);
    }
}

#[test]
fn free_block_allocate_multiple() {
    let data: Vec<u8> = vec![0; 256];
    let mut f = FreeList::new(Memory::new(data));
    let origin = f.first_available();
    let a1 = f.allocate(64);
    let a2 = f.allocate(32);
    let a3 = f.allocate(32);
    assert_eq!(a1.as_ref().map(|a| a.start()), Some(origin));
    assert_eq!(a2.map(|a| a.start()), a1.as_ref().map(|a| a.start() + 64));
    assert_eq!(a3.map(|a| a.start()), a1.as_ref().map(|a| a.start() + 96));
    assert_eq!(Some(f.first_available()), a1.map(|a| a.start() + 128));
}

#[test]
fn free_block_allocate_to_exhaustion() {
    let data: Vec<u8> = vec![0; 256];
    let mut f = FreeList::new(Memory::new(data));
    let first_addr = f.first_available();
    let a1 = f.allocate(128);
    let a2 = f.allocate(128);
    let a3 = f.allocate(16);
    assert_eq!(a1.as_ref().map(|a| a.start()), Some(first_addr));
    assert_eq!(a2.map(|a| a.start()), a1.map(|a| a.start() + 128));
    assert!(a3.is_none());
}

#[test]
fn free_block_retire_first() {
    let data: Vec<u8> = vec![0; 256];
    let mut f = FreeList::new(Memory::new(data));
    let origin = f.first_available();
    let a1 = f.allocate(64);
    assert!(a1.is_some());
    if let Some(a) = a1 {
        f.retire(a);
        // the free block of 64 should have been merged back to the front
        // of the list as a single block.
        assert_eq!(f.debug_chain(), vec![256]);
        assert_eq!(f.first_available(), origin);
    }
}

#[test]
fn free_block_retire_last() {
    let data: Vec<u8> = vec![0; 256];
    let (m1, rest) = Memory::new(data).split_at(128);
    let mut f = FreeList::new(m1);
    let origin = f.first_available();
    let a = rest.split_at(64).1;
    assert_eq!((a.start(), a.len()), (origin + 192, 64));
    f.retire(a);
    assert_eq!(f.debug_chain(), vec![128, 64]);
    assert_eq!(f.first_available(), origin);
}

#[test]
fn free_block_retire_middle() {
    let data: Vec<u8> = vec![0; 256];
    let (m1, rest) = Memory::new(data).split_at(128);
    let mut f = FreeList::new(m1);
    let origin = f.first_available();
    let (b, a) = rest.split_at(64);
    f.retire(a);
    assert_eq!(f.debug_chain(), vec![128, 64]);
    assert_eq!(f.first_available(), origin);

    assert_eq!((b.start(), b.len()), (origin + 128, 64));
    f.retire(b);
    assert_eq!(f.debug_chain(), vec![256]);
    assert_eq!(f.first_available(), origin);
}
