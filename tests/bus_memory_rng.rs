use moesi_sim::bus::{Bus, BusAction, BusSignal};
use moesi_sim::cache::CacheState;
use moesi_sim::main_memory::Memory;
use moesi_sim::random::UniformRng;
use moesi_sim::Event;

fn bus_of(n: usize) -> Bus {
    let mut bus = Bus::new();
    for i in 0..n {
        assert_eq!(bus.register_processor(), i);
    }
    bus
}

#[test]
fn propagation_skips_origin_and_write_backs() {
    let bus = bus_of(4);
    assert_eq!(bus.processors(), 4);
    let rm = BusSignal { origin: 1, address: 0, action: BusAction::ReadMiss };
    assert_eq!(bus.propagate_signal(&rm), vec![0, 2, 3]);
    let inv = BusSignal { origin: 3, address: 0, action: BusAction::Invalidate };
    assert_eq!(bus.propagate_signal(&inv), vec![0, 1, 2]);
    let wm = BusSignal { origin: 0, address: 0, action: BusAction::WriteMem(1) };
    assert!(bus.propagate_signal(&wm).is_empty());
    assert_eq!(bus.reply_count(&rm), 3);
    assert_eq!(bus.reply_count(&inv), 0);
    assert_eq!(bus.reply_count(&wm), 0);
}

#[test]
fn replies_reduce_to_a_supplied_word() {
    let bus = bus_of(4);
    assert_eq!(bus.check_cache_data(&vec![None, None, None]), None);
    assert_eq!(bus.check_cache_data(&vec![None, Some(5), None]), Some(5));
    assert_eq!(bus.check_cache_data(&vec![Some(5), Some(5), None]), Some(5));
    assert_eq!(bus.check_cache_data(&vec![]), None);
}

#[test]
fn read_miss_answers() {
    let bus = bus_of(2);
    let mut memory = Memory::new(8);
    memory.store_address(0x6, 0x77);
    assert_eq!(bus.read_miss_response(Some(3), &memory, 0x6), (CacheState::Shared, 3));
    assert_eq!(bus.read_miss_response(None, &memory, 0x6), (CacheState::Exclusive, 0x77));
    let rm = BusSignal { origin: 0, address: 0x6, action: BusAction::ReadMiss };
    assert_eq!(bus.handle_signal(&rm, &vec![None], &mut memory), Some((CacheState::Exclusive, 0x77)));
    assert_eq!(bus.handle_signal(&rm, &vec![Some(9)], &mut memory), Some((CacheState::Shared, 9)));
}

#[test]
fn write_back_reaches_memory_with_event() {
    let bus = bus_of(2);
    let mut memory = Memory::new(8);
    memory.take_events();
    let wm = BusSignal { origin: 1, address: 0x4, action: BusAction::WriteMem(0xAB) };
    assert_eq!(bus.handle_signal(&wm, &vec![], &mut memory), None);
    assert_eq!(memory.get_address(0x4), 0xAB);
    assert_eq!(memory.get_storage(2), Some(0xAB));
    assert_eq!(memory.take_events(), vec![Event::MemWrite { block_i: 2, data: 0xAB }]);
    let inv = BusSignal { origin: 1, address: 0x4, action: BusAction::Invalidate };
    assert_eq!(bus.handle_signal(&inv, &vec![], &mut memory), None);
    assert!(memory.take_events().is_empty());
}

#[test]
fn memory_basics() {
    let mut memory = Memory::new(8);
    assert_eq!(memory.blocks(), 8);
    for i in 0..8 {
        assert_eq!(memory.get_storage(i), Some(0));
    }
    assert_eq!(memory.get_storage(8), None);
    assert_eq!(memory.get_line(0x7), 3);
    memory.store_line(5, 0x1234);
    assert_eq!(memory.get_address(0xA), 0x1234);
    assert_eq!(memory.get_address(0xB), 0x1234);
    assert_eq!(memory.take_events(), vec![Event::MemWrite { block_i: 5, data: 0x1234 }]);
}

#[test]
fn generator_sequence_from_seed() {
    let mut rng = UniformRng::from_seed(0);
    assert_eq!(rng.gen(), 12345);
    assert_eq!(rng.gen(), 887016414);
    assert_eq!(rng.gen(), 4179149770);
}

#[test]
fn generator_is_reproducible() {
    let mut a = UniformRng::from_seed(7);
    let mut b = UniformRng::from_seed(7);
    for _ in 0..100 {
        assert_eq!(a.gen(), b.gen());
    }
}

#[test]
fn generator_range() {
    let mut rng = UniformRng::from_seed(42);
    assert_eq!(rng.gen_range(10, 20), 10);
    let mut rng = UniformRng::from_seed(0);
    for _ in 0..200 {
        let v = rng.gen_range(3, 9);
        assert!((3..=9).contains(&v));
    }
    let mut full = UniformRng::from_seed(0);
    assert_eq!(full.gen_range(0, u32::MAX), 12345);
}
