use mwgc::heap::Heap;
use mwgc::memory::Memory;

// used to test the GC: an object of four machine words.
const SAMPLE_SIZE: usize = 32;
const WORD: usize = 8;
const P: usize = 0;
const NUMBER: usize = 1;
const NEXT: usize = 2;
const PREV: usize = 3;

fn new_heap_of(len: usize) -> Heap {
    Heap::new(Memory::new(vec![0; len]))
}

fn sample(h: &mut Heap) -> usize {
    h.allocate_object(SAMPLE_SIZE).unwrap()
}

fn set(h: &mut Heap, object: usize, field: usize, value: usize) {
    h.write_word(object + field * WORD, value as u64);
}

fn get(h: &Heap, object: usize, field: usize) -> usize {
    h.read_word(object + field * WORD) as usize
}

#[test]
fn new_heap() {
    let data: Vec<u8> = vec![0; 256];
    let memory = Memory::new(data);
    let start = memory.start();
    let h = Heap::new(memory);
    assert_eq!(h.get_stats().start, start);
    assert_eq!(h.get_stats().end, h.get_stats().start + 240);

    assert_eq!(h.dump(), "FREE[240]");
}

#[test]
fn test_mwgc_allocate() {
    let mut h = new_heap_of(256);
    let alloc = h.allocate(32);
    assert!(alloc.is_some());
    if let Some(m) = alloc {
        assert_eq!(m.len(), 32);

        assert_eq!(h.dump(), "Blue[32], FREE[208]");
    }
}

#[test]
fn allocate_array() {
    let mut h = new_heap_of(256);
    let array = h.allocate_array(4, 10);
    assert!(array.is_some());
    if let Some(a) = array {
        assert_eq!(h.size_of(a) / 4, 12);

        // multiple of 16:
        assert_eq!(h.dump(), "Blue[48], FREE[192]");
    }
}

#[test]
fn retire() {
    let mut h = new_heap_of(256);
    let m1 = h.allocate(32).unwrap();
    let m2 = h.allocate(32).unwrap();
    h.retire(m1);
    assert_eq!(h.dump(), "FREE[32], Blue[32], FREE[176]");
    h.retire(m2);
    assert_eq!(h.dump(), "FREE[240]");

    let m3 = h.allocate_object(SAMPLE_SIZE).unwrap();
    assert_eq!(h.dump(), format!("Blue[{}], FREE[{}]", SAMPLE_SIZE, 240 - SAMPLE_SIZE));
    h.retire_object(m3);
    assert_eq!(h.dump(), "FREE[240]");
}

#[test]
fn mark_simple() {
    let mut h = new_heap_of(256);
    let o1 = sample(&mut h);
    let o2 = sample(&mut h);
    let _o3 = sample(&mut h);
    let o4 = sample(&mut h);
    let o5 = sample(&mut h);

    assert_eq!(h.dump_spans(), "Blue, Blue, Blue, Blue, Blue, FREE");

    // leave o3 stranded. make o1 point to o2, which points to o4, o5, and back to o1.
    set(&mut h, o4, P, 455);
    set(&mut h, o5, NUMBER, 23);
    set(&mut h, o2, P, o4);
    set(&mut h, o2, NEXT, o5);
    set(&mut h, o2, PREV, o1);
    set(&mut h, o1, P, o2);

    h.mark_start(&[o1]);
    assert_eq!(h.get_mark_range(), (o1, o1));
    assert_eq!(h.dump_spans(), "Check, Blue, Blue, Blue, Blue, FREE");

    assert!(!h.mark_round());
    assert_eq!(h.get_mark_range(), (o2, o2));
    assert_eq!(h.dump_spans(), "Green, Check, Blue, Blue, Blue, FREE");

    assert!(!h.mark_round());
    assert_eq!(h.get_mark_range(), (o4, o5));
    assert_eq!(h.dump_spans(), "Green, Green, Blue, Check, Check, FREE");

    assert!(h.mark_round());
    assert_eq!(h.get_mark_range(), (0, 0));
    assert_eq!(h.dump_spans(), "Green, Green, Blue, Green, Green, FREE");
}

#[test]
fn sweep_simple() {
    let mut h = new_heap_of(256);
    let o1 = sample(&mut h);
    let _o2 = sample(&mut h);
    let o3 = sample(&mut h);
    let _o4 = sample(&mut h);
    let _o5 = sample(&mut h);

    assert_eq!(h.dump_spans(), "Blue, Blue, Blue, Blue, Blue, FREE");

    set(&mut h, o1, P, o3);
    h.mark(&[o1]);
    assert_eq!(h.dump_spans(), "Green, Blue, Green, Blue, Blue, FREE");
    h.sweep();
    assert_eq!(h.dump_spans(), "Green, FREE, Green, FREE");

    set(&mut h, o1, P, 0);
    h.mark(&[o1]);
    assert_eq!(h.dump_spans(), "Blue, FREE, Green, FREE");
    h.sweep();
    assert_eq!(h.dump_spans(), "Blue, FREE");
}

#[test]
fn alloc_during_collection() {
    let mut h = new_heap_of(256);

    // start with o1 -> o2 -> o3.
    let o1 = sample(&mut h);
    let o2 = sample(&mut h);
    let o3 = sample(&mut h);
    set(&mut h, o2, P, o3);
    set(&mut h, o1, P, o2);

    h.mark_start(&[o1]);
    assert_eq!(h.dump_spans(), "Check, Blue, Blue, FREE");

    assert_eq!(h.mark_round(), false);
    assert_eq!(h.dump_spans(), "Green, Check, Blue, FREE");

    // o1 is saved, o2 will be checked on the next round. so, let's
    // allocate an o4, and move the links to be: o2 -> o4 -> o3.
    let o4 = sample(&mut h);
    assert_eq!(h.dump_spans(), "Green, Check, Blue, Check, FREE");
    set(&mut h, o4, P, o3);
    let o2 = get(&h, o1, P);
    set(&mut h, o1, P, 0);
    set(&mut h, o2, P, o4);

    assert_eq!(h.mark_round(), false);
    assert_eq!(h.dump_spans(), "Green, Green, Check, Green, FREE");

    assert_eq!(h.mark_round(), true);
    assert_eq!(h.dump_spans(), "Green, Green, Green, Green, FREE");
}

#[test]
fn inner_pointer() {
    let mut h = new_heap_of(256);

    // o1 points to inside o3.
    let o1 = sample(&mut h);
    let _o2 = sample(&mut h);
    let o3 = sample(&mut h);
    let inside_o3 = o3 + WORD * 2;
    set(&mut h, o1, P, inside_o3);

    h.gc(&[o1]);
    assert_eq!(h.dump_spans(), "Green, FREE, Green, FREE");
}

#[test]
fn ref_moves_backward() {
    let mut h = new_heap_of(256);

    // start with o1 -> o2 -> o3.
    let o1 = sample(&mut h);
    let o2 = sample(&mut h);
    let o3 = sample(&mut h);
    set(&mut h, o2, P, o3);
    set(&mut h, o1, P, o2);

    h.mark_start(&[o1]);
    assert_eq!(h.dump_spans(), "Check, Blue, Blue, FREE");

    assert_eq!(h.mark_round(), false);
    assert_eq!(h.dump_spans(), "Green, Check, Blue, FREE");

    // suddenly it's o1 -> o3 -> o2.
    let o2 = get(&h, o1, P);
    set(&mut h, o1, P, 0);
    let o3 = get(&h, o2, P);
    set(&mut h, o2, P, 0);
    set(&mut h, o3, P, o2);
    set(&mut h, o1, P, o3);
    h.mark_check(o1);
    assert_eq!(h.dump_spans(), "Check, Check, Blue, FREE");

    assert_eq!(h.mark_round(), false);
    assert_eq!(h.dump_spans(), "Green, Green, Check, FREE");

    assert_eq!(h.mark_round(), true);
    assert_eq!(h.dump_spans(), "Green, Green, Green, FREE");
}

#[test]
fn api() {
    let mut h = new_heap_of(256);
    let o1 = sample(&mut h);
    let _o2 = sample(&mut h);
    let o3 = sample(&mut h);
    let o4 = sample(&mut h);
    let _o5 = sample(&mut h);
    set(&mut h, o3, NUMBER, o4 + 1);
    set(&mut h, o1, P, o3);
    let stats = h.get_stats();
    assert_eq!(stats.total_bytes, 240);
    assert_eq!(stats.free_bytes, 240 - 5 * SAMPLE_SIZE);

    assert!(h.size_of(o1) >= SAMPLE_SIZE);

    h.gc(&[o1]);
    assert_eq!(h.dump_spans(), "Green, FREE, Green, FREE");
    let stats2 = h.get_stats();
    assert_eq!(stats2.total_bytes, 240);
    assert_eq!(stats2.free_bytes, 240 - 2 * SAMPLE_SIZE);
}

#[test]
fn safe_pointers() {
    let h = new_heap_of(256);
    let stats = h.get_stats();
    let (start, end) = (stats.start, stats.end);

    assert_eq!(h.is_block(start), true);
    assert_eq!(h.is_block(start - 1), false);
    assert_eq!(h.is_block(end - WORD), true);
    assert_eq!(h.is_block(end - WORD + 1), false);

    assert_eq!(h.is_block(start) && h.size_of(start) > 0, true);
    assert_eq!(h.is_block(start - 1) && h.size_of(start - 1) > 0, false);
    assert_eq!(h.is_block(end - WORD) && h.size_of(end - WORD) > 0, true);
    assert_eq!(h.is_block(end - WORD + 1) && h.size_of(end - WORD + 1) > 0, false);
}
