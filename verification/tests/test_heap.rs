use mwgc::color_map::Color;
use mwgc::free_list::{FreeBlockPtr, FreeListSpan};
use mwgc::heap::{Heap, HeapSpan, HeapStats};
use mwgc::memory::{Memory, BASE_ADDRESS};
use mwgc::model::SpanType;
use mwgc::{ceil_to, div_ceil, floor_to, BLOCK_SIZE_BYTES, WORD_SIZE_BYTES};

const SAMPLE_SIZE: usize = 32;

fn heap_of(len: usize) -> Heap {
    Heap::from_bytes(vec![0; len])
}

fn link(h: &mut Heap, from: usize, to: usize) {
    h.write_word(from, to as u64);
}

#[test]
fn rounding_helpers() {
    assert_eq!(div_ceil(0, 65), 0);
    assert_eq!(div_ceil(1, 65), 1);
    assert_eq!(div_ceil(65, 65), 1);
    assert_eq!(div_ceil(66, 65), 2);
    assert_eq!(div_ceil(256, 65), 4);
    assert_eq!(floor_to(252, 16), 240);
    assert_eq!(floor_to(15, 16), 0);
    assert_eq!(floor_to(16, 16), 16);
    assert_eq!(ceil_to(0, 16), 0);
    assert_eq!(ceil_to(1, 16), 16);
    assert_eq!(ceil_to(16, 16), 16);
    assert_eq!(ceil_to(40, 16), 48);
    assert_eq!(BLOCK_SIZE_BYTES, 16);
    assert_eq!(WORD_SIZE_BYTES, 8);
}

#[test]
fn fresh_heap_reserves_the_color_map_at_the_tail() {
    let h = heap_of(256);
    assert_eq!(
        h.get_stats(),
        HeapStats { total_bytes: 240, free_bytes: 240, start: BASE_ADDRESS, end: BASE_ADDRESS + 240 }
    );
    assert_eq!(h.dump(), "FREE[240]");
    assert_eq!(h.dump_spans(), "FREE");
    assert_eq!(h.get_mark_range(), (0, 0));
}

#[test]
fn pool_size_follows_the_region_size() {
    // one byte of map for every 65 bytes of the region, or part thereof
    assert_eq!(heap_of(65).get_stats().total_bytes, 64);
    assert_eq!(heap_of(66).get_stats().total_bytes, 64);
    assert_eq!(heap_of(130).get_stats().total_bytes, 128);
    assert_eq!(heap_of(1024).get_stats().total_bytes, 1008);
    assert_eq!(heap_of(17).get_stats().total_bytes, 16);
    assert_eq!(heap_of(17).dump(), "FREE[16]");
}

#[test]
fn a_region_too_small_for_a_block_gives_an_empty_pool() {
    for len in [0, 1, 10, 16] {
        let mut h = heap_of(len);
        assert_eq!(h.get_stats().total_bytes, 0);
        assert_eq!(h.get_stats().free_bytes, 0);
        assert_eq!(h.dump(), "");
        assert!(h.allocate(1).is_none());
        h.gc(&[]);
        assert_eq!(h.dump(), "");
    }
}

#[test]
fn allocation_is_zeroed_and_at_the_pool_start() {
    let mut bytes = vec![0xaa; 256];
    bytes[8] = 0x55;
    let mut h = Heap::from_bytes(bytes);
    let m = h.allocate(32).unwrap();
    assert_eq!(m.start(), BASE_ADDRESS);
    assert_eq!(m.len(), 32);
    assert_eq!(m.inner(), vec![0; 32]);
    for offset in [0, 8, 16, 24] {
        assert_eq!(h.read_word(BASE_ADDRESS + offset), 0);
    }
    // what lies behind the span is as it was
    assert_eq!(h.read_word(BASE_ADDRESS + 32), 0xaaaa_aaaa_aaaa_aaaa);
}

#[test]
fn allocation_rounds_up_to_whole_blocks() {
    let mut h = heap_of(256);
    assert_eq!(h.allocate(1).unwrap().len(), 16);
    assert_eq!(h.allocate(16).unwrap().len(), 16);
    assert_eq!(h.allocate(17).unwrap().len(), 32);
    assert_eq!(h.allocate(0).unwrap().len(), 16);
    assert_eq!(h.dump(), "Blue[16], Blue[16], Blue[32], Blue[16], FREE[160]");
}

#[test]
fn allocation_that_does_not_fit_leaves_the_heap_as_it_was() {
    let mut h = heap_of(256);
    let _m = h.allocate(100).unwrap();
    assert_eq!(h.dump(), "Blue[112], FREE[128]");
    assert!(h.allocate(129).is_none());
    assert!(h.allocate(usize::MAX).is_none());
    assert!(h.allocate(usize::MAX - 15).is_none());
    assert_eq!(h.dump(), "Blue[112], FREE[128]");
    assert_eq!(h.get_stats().free_bytes, 128);
    assert_eq!(h.allocate(128).unwrap().len(), 128);
    assert_eq!(h.dump(), "Blue[112], Blue[128]");
    assert_eq!(h.get_stats().free_bytes, 0);
    assert!(h.allocate(1).is_none());
}

#[test]
fn allocation_takes_the_first_region_that_fits() {
    let mut h = heap_of(256);
    let a = h.allocate(32).unwrap();
    let _b = h.allocate(16).unwrap();
    let c = h.allocate(64).unwrap();
    let _d = h.allocate(16).unwrap();
    let c_start = c.start();
    h.retire(a);
    h.retire(c);
    assert_eq!(h.dump(), "FREE[32], Blue[16], FREE[64], Blue[16], FREE[112]");
    let e = h.allocate(48).unwrap();
    assert_eq!(e.start(), c_start);
    assert_eq!(h.dump(), "FREE[32], Blue[16], Blue[48], FREE[16], Blue[16], FREE[112]");
}

#[test]
fn object_allocations_ask_for_the_sum_or_the_product() {
    let mut h = heap_of(256);
    let o = h.allocate_object(24).unwrap();
    assert_eq!(o, BASE_ADDRESS);
    let d = h.allocate_dynamic_object(24, 10).unwrap();
    assert_eq!(d, BASE_ADDRESS + 32);
    let a = h.allocate_array(6, 7).unwrap();
    assert_eq!(a, BASE_ADDRESS + 80);
    assert_eq!(h.dump(), "Blue[32], Blue[48], Blue[48], FREE[112]");
    assert_eq!(h.size_of(o), 32);
    assert_eq!(h.size_of(d + 40), 48);
    assert_eq!(h.size_of(a), 48);
    assert!(h.allocate_dynamic_object(usize::MAX, 1).is_none());
    assert!(h.allocate_array(usize::MAX, 2).is_none());
    assert!(h.allocate_array(16, 8).is_none());
    assert_eq!(h.dump(), "Blue[32], Blue[48], Blue[48], FREE[112]");
}

#[test]
fn retire_undoes_allocate() {
    let mut h = heap_of(256);
    let _a = h.allocate(48).unwrap();
    let b = h.allocate(16).unwrap();
    let _c = h.allocate(32).unwrap();
    h.retire(b);
    let before = h.dump();
    let free_before = h.get_stats().free_bytes;
    assert_eq!(before, "Blue[48], FREE[16], Blue[32], FREE[144]");
    for amount in [1, 16, 17, 100, 144] {
        let m = h.allocate(amount).unwrap();
        assert_ne!(h.dump(), before);
        h.retire(m);
        assert_eq!(h.dump(), before);
        assert_eq!(h.get_stats().free_bytes, free_before);
    }
}

#[test]
fn retire_object_takes_a_reference_into_the_object() {
    let mut h = heap_of(256);
    let _a = h.allocate_object(16).unwrap();
    let b = h.allocate_object(64).unwrap();
    let _c = h.allocate_object(16).unwrap();
    h.retire_object(b + 40);
    assert_eq!(h.dump(), "Blue[16], FREE[64], Blue[16], FREE[144]");
}

#[test]
fn sizes_of_free_and_allocated_spans_add_up() {
    let mut h = heap_of(1024);
    let mut objects = Vec::new();
    for size in [16, 40, 100, 8, 64, 200] {
        objects.push(h.allocate_object(size).unwrap());
    }
    h.retire_object(objects[1]);
    h.retire_object(objects[4]);
    let stats = h.get_stats();
    let allocated: usize = [0, 2, 3, 5].iter().map(|i| h.size_of(objects[*i])).sum();
    assert_eq!(allocated, 16 + 112 + 16 + 208);
    assert_eq!(stats.free_bytes + allocated, stats.total_bytes);
    assert_eq!(stats.total_bytes, 1008);
}

#[test]
fn words_are_written_least_significant_byte_first() {
    let mut h = heap_of(256);
    let o = h.allocate_object(32).unwrap();
    h.write_word(o + 8, 0x0102_0304_0506_0708);
    assert_eq!(h.read_word(o + 8), 0x0102_0304_0506_0708);
    assert_eq!(h.read_word(o), 0);
    assert_eq!(h.read_word(o + 16), 0);
    // a word that lies across two words
    assert_eq!(h.read_word(o + 4), 0x0506_0708_0000_0000);
    assert_eq!(h.read_word(o + 12), 0x0000_0000_0102_0304);
    h.write_word(o + 8, u64::MAX);
    assert_eq!(h.read_word(o + 8), u64::MAX);
}

#[test]
fn is_block_wants_the_pool_and_a_whole_word() {
    let h = heap_of(256);
    let stats = h.get_stats();
    assert!(h.is_block(stats.start));
    assert!(h.is_block(stats.start + 8));
    assert!(!h.is_block(stats.start + 4));
    assert!(!h.is_block(stats.start - 8));
    assert!(h.is_block(stats.end - 8));
    assert!(!h.is_block(stats.end));
    assert!(!h.is_block(0));
    assert!(!h.is_block(usize::MAX));
}

#[test]
fn block_arithmetic() {
    let mut h = heap_of(256);
    let _a = h.allocate_object(48).unwrap();
    let b = h.allocate_object(32).unwrap();
    assert_eq!(h.address_of(0), BASE_ADDRESS);
    assert_eq!(h.address_of(3), BASE_ADDRESS + 48);
    assert_eq!(h.address_of(15), BASE_ADDRESS + 240);
    assert_eq!(h.block_of(BASE_ADDRESS), 0);
    assert_eq!(h.block_of(BASE_ADDRESS + 47), 0);
    assert_eq!(h.block_of(b), 3);
    assert_eq!(h.block_of(b + 31), 3);
    // a free block is its own span
    assert_eq!(h.block_of(b + 32), 5);
    assert_eq!(h.block_of(b + 48), 6);
    let range = h.get_range(b + 20);
    assert_eq!((range.start, range.end, range.color), (3, 5, Color::Blue));
    let m = Memory::from_addresses(b, b + 32);
    let range = h.block_range_of(&m, Color::Check);
    assert_eq!((range.start, range.end, range.color), (3, 5, Color::Check));
}

#[test]
fn walk_over_the_spans() {
    let mut h = heap_of(256);
    let a = h.allocate(32).unwrap();
    let _b = h.allocate(64).unwrap();
    h.retire(a);
    let mut it = h.iter();
    let first = FreeListSpan { insert_point: FreeBlockPtr { index: 0 }, ptr: FreeBlockPtr { index: 0 } };
    let second = FreeListSpan { insert_point: FreeBlockPtr { index: 0 }, ptr: FreeBlockPtr { index: 1 } };
    let third = FreeListSpan { insert_point: FreeBlockPtr { index: 1 }, ptr: FreeBlockPtr { index: 2 } };
    assert_eq!(
        it.next(&h),
        Some(HeapSpan {
            start: BASE_ADDRESS,
            end: BASE_ADDRESS + 32,
            span_type: SpanType::Free,
            free_list_span: first
        })
    );
    assert_eq!(
        it.next(&h),
        Some(HeapSpan {
            start: BASE_ADDRESS + 32,
            end: BASE_ADDRESS + 96,
            span_type: SpanType::Color(Color::Blue),
            free_list_span: second
        })
    );
    assert_eq!(
        it.next(&h),
        Some(HeapSpan {
            start: BASE_ADDRESS + 96,
            end: BASE_ADDRESS + 240,
            span_type: SpanType::Free,
            free_list_span: second
        })
    );
    assert_eq!(it.next(&h), None);
    assert_eq!(it.next(&h), None);
    assert_eq!(third.ptr.block(h.free_list()), None);
    assert_eq!(second.ptr.block(h.free_list()).map(|b| b.size), Some(144));
}

#[test]
fn gray_range_is_empty_outside_marking() {
    let mut h = heap_of(256);
    let o1 = h.allocate_object(SAMPLE_SIZE).unwrap();
    let o2 = h.allocate_object(SAMPLE_SIZE).unwrap();
    link(&mut h, o1, o2);
    assert_eq!(h.get_mark_range(), (0, 0));
    h.mark_start(&[o1]);
    assert_eq!(h.get_mark_range(), (o1, o1));
    assert!(!h.mark_round());
    assert_eq!(h.get_mark_range(), (o2, o2));
    assert!(h.mark_round());
    assert_eq!(h.get_mark_range(), (0, 0));
    h.sweep();
    assert_eq!(h.get_mark_range(), (0, 0));
    assert_eq!(h.dump_spans(), "Green, Green, FREE");
}

#[test]
fn gray_range_holds_every_root() {
    let mut h = heap_of(256);
    let o1 = h.allocate_object(SAMPLE_SIZE).unwrap();
    let o2 = h.allocate_object(SAMPLE_SIZE).unwrap();
    let o3 = h.allocate_object(SAMPLE_SIZE).unwrap();
    // the second root points into its object; the third is no reference
    h.mark_start(&[o3, o1 + 8, o2 + 1, 0, usize::MAX]);
    assert_eq!(h.get_mark_range(), (o1 + 8, o3));
    assert_eq!(h.dump_spans(), "Check, Blue, Check, FREE");
    assert!(h.mark_round());
    assert_eq!(h.dump_spans(), "Green, Blue, Green, FREE");
    h.sweep();
    assert_eq!(h.dump(), "Green[32], FREE[32], Green[32], FREE[144]");
}

#[test]
fn marking_with_no_roots_is_over_at_once() {
    let mut h = heap_of(256);
    let _o1 = h.allocate_object(SAMPLE_SIZE).unwrap();
    h.mark_start(&[]);
    assert_eq!(h.get_mark_range(), (0, 0));
    assert!(h.mark_round());
    h.sweep();
    assert_eq!(h.dump(), "FREE[240]");
}

#[test]
fn collection_frees_what_cannot_be_reached() {
    let mut h = heap_of(512);
    let o: Vec<usize> = (0..8).map(|_| h.allocate_object(SAMPLE_SIZE).unwrap()).collect();
    // a chain from o0 over o2 and o4 to o6, and a ring of o1, o3 and o5 that no root leads to
    link(&mut h, o[0] + 8, o[2]);
    link(&mut h, o[2] + 16, o[4]);
    link(&mut h, o[4] + 24, o[6] + 16);
    link(&mut h, o[1], o[3]);
    link(&mut h, o[3], o[5]);
    link(&mut h, o[5], o[1]);
    link(&mut h, o[7], o[0]);
    h.gc(&[o[0]]);
    assert_eq!(
        h.dump(),
        "Green[32], FREE[32], Green[32], FREE[32], Green[32], FREE[32], Green[32], FREE[272]"
    );
    assert_eq!(h.get_stats().free_bytes, 496 - 4 * SAMPLE_SIZE);
    // the objects that are kept hold what they held
    assert_eq!(h.read_word(o[0] + 8), o[2] as u64);
    assert_eq!(h.read_word(o[4] + 24), (o[6] + 16) as u64);
}

#[test]
fn collection_is_idempotent() {
    let mut h = heap_of(512);
    let o: Vec<usize> = (0..6).map(|_| h.allocate_object(48).unwrap()).collect();
    link(&mut h, o[0], o[3]);
    link(&mut h, o[3] + 40, o[5]);
    h.gc(&[o[0], o[1]]);
    let first = h.dump();
    let stats = h.get_stats();
    assert_eq!(first, "Green[48], Green[48], FREE[48], Green[48], FREE[48], Green[48], FREE[208]");
    h.gc(&[o[0], o[1]]);
    assert_eq!(h.dump(), first.replace("Green", "Blue"));
    assert_eq!(h.get_stats(), stats);
    h.gc(&[o[0], o[1]]);
    assert_eq!(h.dump(), first);
    assert_eq!(h.get_stats(), stats);
}

#[test]
fn misaligned_words_are_no_references() {
    let mut h = heap_of(256);
    let o1 = h.allocate_object(SAMPLE_SIZE).unwrap();
    let o2 = h.allocate_object(SAMPLE_SIZE).unwrap();
    link(&mut h, o1, o2 + 1);
    h.gc(&[o1]);
    assert_eq!(h.dump_spans(), "Green, FREE");
}

#[test]
fn sweep_appends_behind_the_last_free_region() {
    // a pool that is full but for its first block, with a live object
    // between that free block and the garbage at the end of the pool
    let mut h = heap_of(256);
    let first = h.allocate_object(16).unwrap();
    let live = h.allocate_object(32).unwrap();
    let _dead = h.allocate_object(192).unwrap();
    h.retire_object(first);
    assert_eq!(h.dump(), "FREE[16], Blue[32], Blue[192]");
    h.gc(&[live]);
    assert_eq!(h.dump(), "FREE[16], Green[32], FREE[192]");
    assert_eq!(h.get_stats().free_bytes, 208);
}

#[test]
fn sweep_joins_what_it_frees_with_the_regions_around() {
    let mut h = heap_of(256);
    let o: Vec<usize> = (0..7).map(|_| h.allocate_object(SAMPLE_SIZE).unwrap()).collect();
    h.retire_object(o[1]);
    h.retire_object(o[3]);
    assert_eq!(h.dump(), "Blue[32], FREE[32], Blue[32], FREE[32], Blue[32], Blue[32], Blue[32], FREE[16]");
    // o2 lies between two free regions, o4 and o5 behind a free region, o6 in front of one
    h.gc(&[o[0]]);
    assert_eq!(h.dump(), "Green[32], FREE[208]");
    h.gc(&[]);
    assert_eq!(h.dump(), "FREE[240]");
}

#[test]
fn free_regions_in_the_gray_range_are_passed_over() {
    let mut h = heap_of(256);
    let o1 = h.allocate_object(SAMPLE_SIZE).unwrap();
    let o2 = h.allocate_object(SAMPLE_SIZE).unwrap();
    let o3 = h.allocate_object(SAMPLE_SIZE).unwrap();
    let o4 = h.allocate_object(SAMPLE_SIZE).unwrap();
    // what o2 holds when it is retired would lead to o4
    link(&mut h, o2, o4);
    h.retire_object(o2);
    h.mark_start(&[o1, o3]);
    assert_eq!(h.get_mark_range(), (o1, o3));
    assert_eq!(h.dump_spans(), "Check, FREE, Check, Blue, FREE");
    assert!(h.mark_round());
    assert_eq!(h.dump_spans(), "Green, FREE, Green, Blue, FREE");
    h.sweep();
    assert_eq!(h.dump(), "Green[32], FREE[32], Green[32], FREE[144]");
    // the free region is still all check: a span in front of it ends where it begins
    let o5 = h.allocate_object(16).unwrap();
    assert_eq!(o5, o2);
    assert_eq!(h.size_of(o5), 16);
    assert_eq!(h.dump(), "Green[32], Green[16], FREE[16], Green[32], FREE[144]");
}

#[test]
fn mark_check_only_counts_while_marking() {
    let mut h = heap_of(256);
    let o1 = h.allocate_object(SAMPLE_SIZE).unwrap();
    h.mark_check(o1);
    assert_eq!(h.dump_spans(), "Blue, FREE");
    assert_eq!(h.get_mark_range(), (0, 0));
    h.mark(&[o1]);
    h.mark_check(o1);
    assert_eq!(h.dump_spans(), "Green, FREE");
    assert_eq!(h.get_mark_range(), (0, 0));
    h.sweep();
    h.mark_start(&[]);
    h.mark_check(o1 + 3);
    h.mark_check(0);
    assert_eq!(h.get_mark_range(), (0, 0));
    h.mark_check(o1 + 8);
    assert_eq!(h.get_mark_range(), (o1 + 8, o1 + 8));
    assert_eq!(h.dump_spans(), "Check, FREE");
    assert!(h.mark_round());
    assert_eq!(h.dump_spans(), "Blue, FREE");
}

#[test]
fn allocation_gets_the_current_color_when_not_marking() {
    let mut h = heap_of(256);
    let o1 = h.allocate_object(16).unwrap();
    h.mark(&[o1]);
    // marked, not swept yet
    let _o2 = h.allocate_object(16).unwrap();
    assert_eq!(h.dump_spans(), "Green, Green, FREE");
    h.sweep();
    let _o3 = h.allocate_object(16).unwrap();
    assert_eq!(h.dump_spans(), "Green, Green, Green, FREE");
}

#[test]
fn retire_while_marking() {
    let mut h = heap_of(256);
    let o1 = h.allocate_object(SAMPLE_SIZE).unwrap();
    let o2 = h.allocate_object(SAMPLE_SIZE).unwrap();
    link(&mut h, o1, o2);
    h.mark_start(&[o1]);
    h.retire_object(o1);
    assert_eq!(h.dump_spans(), "FREE, Blue, FREE");
    // the range is still there, though no object is gray
    assert_eq!(h.get_mark_range(), (o1, o1));
    assert!(h.mark_round());
    h.sweep();
    assert_eq!(h.dump(), "FREE[240]");
}

#[test]
fn color_map_follows_the_spans() {
    let mut h = heap_of(256);
    assert_eq!(h.color_map().dump(), "ColorMap(CCCCCCCCCCCCCCCC)");
    let a = h.allocate_object(48).unwrap();
    let b = h.allocate_object(16).unwrap();
    let c = h.allocate_object(64).unwrap();
    assert_eq!(h.color_map().dump(), "ColorMap(B..BB...CCCCCCCC)");
    h.retire_object(b);
    assert_eq!(h.color_map().dump(), "ColorMap(B..CB...CCCCCCCC)");
    assert_eq!(h.free_list().debug_chain(), vec![16, 112]);
    link(&mut h, a, c + 56);
    h.mark_start(&[a]);
    assert_eq!(h.color_map().dump(), "ColorMap(C..CB...CCCCCCCC)");
    assert!(!h.mark_round());
    assert_eq!(h.color_map().dump(), "ColorMap(G..CC...CCCCCCCC)");
    // an allocation while marking is gray, and is scanned in a later round
    let d = h.allocate_object(32).unwrap();
    assert_eq!(d, c + 64);
    assert_eq!(h.color_map().dump(), "ColorMap(G..CC...C.CCCCCC)");
    assert_eq!(h.get_mark_range(), (c + 56, d));
    assert!(h.mark_round());
    assert_eq!(h.color_map().dump(), "ColorMap(G..CG...G.CCCCCC)");
    h.sweep();
    h.gc(&[d]);
    // every block of a region that the sweep has freed is check
    assert_eq!(h.color_map().dump(), "ColorMap(CCCCCCCCB.CCCCCC)");
    assert_eq!(h.free_list().debug_chain(), vec![128, 80]);
    assert_eq!(h.free_list().first_available(), BASE_ADDRESS);
    assert_eq!(h.dump(), "FREE[128], Blue[32], FREE[80]");
}

#[test]
fn mark_and_sweep_simple() {
    let mut h = heap_of(256);
    let o: Vec<usize> = (0..5).map(|_| h.allocate_object(SAMPLE_SIZE).unwrap()).collect();
    // o1 points to o2, which points to o4, o5, and back to o1; o3 is stranded
    link(&mut h, o[0], o[1]);
    link(&mut h, o[1], o[3]);
    link(&mut h, o[1] + 16, o[4]);
    link(&mut h, o[1] + 24, o[0]);
    h.mark_start(&[o[0]]);
    assert_eq!(h.dump_spans(), "Check, Blue, Blue, Blue, Blue, FREE");
    assert!(!h.mark_round());
    assert_eq!(h.dump_spans(), "Green, Check, Blue, Blue, Blue, FREE");
    assert!(!h.mark_round());
    assert_eq!(h.dump_spans(), "Green, Green, Blue, Check, Check, FREE");
    assert!(h.mark_round());
    assert_eq!(h.dump_spans(), "Green, Green, Blue, Green, Green, FREE");
    h.sweep();
    assert_eq!(h.dump(), "Green[32], Green[32], FREE[32], Green[32], Green[32], FREE[80]");
    assert_eq!(h.get_stats().free_bytes, 112);
}

#[test]
fn a_barrier_after_a_mutation_keeps_what_moved_behind_the_pass() {
    let mut h = heap_of(256);
    let o1 = h.allocate_object(SAMPLE_SIZE).unwrap();
    let o2 = h.allocate_object(SAMPLE_SIZE).unwrap();
    let o3 = h.allocate_object(SAMPLE_SIZE).unwrap();
    link(&mut h, o2, o3);
    link(&mut h, o1, o2);
    h.mark_start(&[o1]);
    assert!(!h.mark_round());
    // suddenly it's o1 -> o3 -> o2.
    link(&mut h, o2, 0);
    link(&mut h, o3, o2);
    link(&mut h, o1, o3);
    h.mark_check(o1);
    assert_eq!(h.get_mark_range(), (o1, o2));
    assert!(!h.mark_round());
    assert!(h.mark_round());
    h.sweep();
    assert_eq!(h.dump(), "Green[32], Green[32], Green[32], FREE[144]");
}
