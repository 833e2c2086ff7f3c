use moesi_sim::bus::{BusAction, BusSignal};
use moesi_sim::cache::{CacheLine, CacheState};
use moesi_sim::instructions::Instruction;
use moesi_sim::system::{SocProperties, System};
use moesi_sim::{Event, MemOp};

fn four_by_two_by_two() -> System {
    System::new(SocProperties {
        num_processors: 4,
        cache_associativity: 2,
        cache_sets: 2,
        main_memory_blocks: 8,
    })
}

fn line_of(sys: &System, p: usize, address: usize) -> Option<CacheLine> {
    sys.cache(p).get_address(address)
}

fn read(sys: &mut System, p: usize, address: usize) -> moesi_sim::system::Trace {
    sys.execute(p, Instruction::Read { address })
}

fn write(sys: &mut System, p: usize, address: usize, data: u16) -> moesi_sim::system::Trace {
    sys.execute(p, Instruction::Write { address, data })
}

fn signal(origin: usize, address: usize, action: BusAction) -> BusSignal {
    BusSignal { origin, address, action }
}

#[test]
fn exclusive_fill() {
    let mut sys = four_by_two_by_two();
    let t = read(&mut sys, 0, 0x0);
    assert_eq!(t.alert, Some(Event::Alert { processor_i: 0, address: 0x0, op: MemOp::Read }));
    assert_eq!(t.signals, vec![signal(0, 0x0, BusAction::ReadMiss)]);
    assert_eq!(
        line_of(&sys, 0, 0x0),
        Some(CacheLine { state: CacheState::Exclusive, tag: 0, data: 0x0000 })
    );
    for p in 1..4 {
        assert_eq!(line_of(&sys, p, 0x0), None);
    }
    assert_eq!(
        sys.take_events(),
        vec![Event::CacheWrite {
            cache_i: 0,
            block_i: 0,
            line: CacheLine { state: CacheState::Exclusive, tag: 0, data: 0x0000 },
        }]
    );
}

#[test]
fn share_on_second_reader() {
    let mut sys = four_by_two_by_two();
    read(&mut sys, 0, 0x0);
    let t = read(&mut sys, 1, 0x0);
    assert_eq!(t.alert, Some(Event::Alert { processor_i: 1, address: 0x0, op: MemOp::Read }));
    assert_eq!(t.signals, vec![signal(1, 0x0, BusAction::ReadMiss)]);
    assert_eq!(line_of(&sys, 0, 0x0).unwrap().state, CacheState::Owned);
    assert_eq!(
        line_of(&sys, 1, 0x0),
        Some(CacheLine { state: CacheState::Shared, tag: 0, data: 0x0000 })
    );
    assert_eq!(line_of(&sys, 2, 0x0), None);
    assert_eq!(line_of(&sys, 3, 0x0), None);
}

#[test]
fn write_invalidation() {
    let mut sys = four_by_two_by_two();
    read(&mut sys, 0, 0x0);
    read(&mut sys, 1, 0x0);
    let t = write(&mut sys, 2, 0x0, 0xBEEF);
    assert_eq!(t.alert, Some(Event::Alert { processor_i: 2, address: 0x0, op: MemOp::Write }));
    assert_eq!(t.signals, vec![signal(2, 0x0, BusAction::Invalidate)]);
    assert_eq!(
        line_of(&sys, 2, 0x0),
        Some(CacheLine { state: CacheState::Modified, tag: 0, data: 0xBEEF })
    );
    assert_eq!(line_of(&sys, 0, 0x0), None);
    assert_eq!(line_of(&sys, 1, 0x0), None);
    assert_eq!(line_of(&sys, 3, 0x0), None);
    assert_eq!(sys.memory().get_address(0x0), 0x0000);
}

#[test]
fn write_to_same_set_fills_invalid_slot() {
    let mut sys = four_by_two_by_two();
    read(&mut sys, 0, 0x0);
    read(&mut sys, 1, 0x0);
    write(&mut sys, 2, 0x0, 0xBEEF);
    // 0x4 maps to the set of 0x0; the invalid slot has the least priority
    let t = write(&mut sys, 2, 0x4, 0x0001);
    assert_eq!(t.signals, vec![signal(2, 0x4, BusAction::Invalidate)]);
    let tag_of_4 = sys.cache(2).get_tag(0x4);
    assert_eq!(tag_of_4, 1);
    assert_eq!(
        line_of(&sys, 2, 0x4),
        Some(CacheLine { state: CacheState::Modified, tag: tag_of_4, data: 0x0001 })
    );
    assert_eq!(sys.memory().get_address(0x0), 0x0000);
}

#[test]
fn write_back_on_eviction() {
    let mut sys = four_by_two_by_two();
    write(&mut sys, 2, 0x0, 0xBEEF);
    write(&mut sys, 2, 0x4, 0x0001);
    // both slots of the set are modified: the first one is the victim
    let t = write(&mut sys, 2, 0x8, 0x0002);
    assert_eq!(t.alert, Some(Event::Alert { processor_i: 2, address: 0x8, op: MemOp::Write }));
    assert_eq!(t.signals, vec![signal(2, 0x0, BusAction::WriteMem(0xBEEF))]);
    assert_eq!(sys.memory().get_address(0x0), 0xBEEF);
    let events = sys.take_events();
    assert_eq!(events.last(), Some(&Event::MemWrite { block_i: 0, data: 0xBEEF }));
    assert_eq!(line_of(&sys, 2, 0x0), None);
    assert_eq!(
        line_of(&sys, 2, 0x8),
        Some(CacheLine { state: CacheState::Modified, tag: 2, data: 0x0002 })
    );
}

#[test]
fn sourcing_data_from_owned() {
    let mut sys = four_by_two_by_two();
    write(&mut sys, 0, 0x2, 0x1234);
    read(&mut sys, 1, 0x2);
    assert_eq!(line_of(&sys, 0, 0x2).unwrap().state, CacheState::Owned);
    assert_eq!(line_of(&sys, 1, 0x2).unwrap().state, CacheState::Shared);
    assert_eq!(sys.memory().get_address(0x2), 0x0000);
    let t = read(&mut sys, 2, 0x2);
    assert_eq!(t.signals, vec![signal(2, 0x2, BusAction::ReadMiss)]);
    assert_eq!(
        line_of(&sys, 2, 0x2),
        Some(CacheLine { state: CacheState::Shared, tag: 0, data: 0x1234 })
    );
    assert_eq!(line_of(&sys, 0, 0x2).unwrap().state, CacheState::Owned);
    assert_eq!(line_of(&sys, 1, 0x2).unwrap().state, CacheState::Shared);
    assert_eq!(sys.memory().get_address(0x2), 0x0000);
}

#[test]
fn calc_is_a_no_op() {
    let mut sys = four_by_two_by_two();
    read(&mut sys, 0, 0x0);
    write(&mut sys, 3, 0x6, 0x0042);
    let before: Vec<Option<Vec<CacheLine>>> =
        (0..4).flat_map(|p| (0..2).map(move |s| (p, s))).map(|(p, s)| sys.cache(p).get_set(s)).collect();
    let memory_before: Vec<Option<u16>> = (0..8).map(|i| sys.memory().get_storage(i)).collect();
    sys.take_events();
    let t = sys.execute(3, Instruction::Calc);
    assert_eq!(t.alert, None);
    assert!(t.signals.is_empty());
    assert!(sys.take_events().is_empty());
    let after: Vec<Option<Vec<CacheLine>>> =
        (0..4).flat_map(|p| (0..2).map(move |s| (p, s))).map(|(p, s)| sys.cache(p).get_set(s)).collect();
    let memory_after: Vec<Option<u16>> = (0..8).map(|i| sys.memory().get_storage(i)).collect();
    assert_eq!(before, after);
    assert_eq!(memory_before, memory_after);
}

#[test]
fn read_hit_sends_nothing() {
    let mut sys = four_by_two_by_two();
    read(&mut sys, 0, 0x0);
    let t = read(&mut sys, 0, 0x0);
    assert_eq!(t.alert, None);
    assert!(t.signals.is_empty());
    assert_eq!(line_of(&sys, 0, 0x0).unwrap().state, CacheState::Exclusive);
}

#[test]
fn rewrite_fills_invalid_slot_and_older_copy_is_found_first() {
    let mut sys = four_by_two_by_two();
    write(&mut sys, 1, 0x2, 0x0007);
    let t = write(&mut sys, 1, 0x2, 0x0008);
    // the invalid slot has the least priority, so the modified copy stays ahead of it
    assert_eq!(t.alert, Some(Event::Alert { processor_i: 1, address: 0x2, op: MemOp::Write }));
    assert_eq!(t.signals, vec![signal(1, 0x2, BusAction::Invalidate)]);
    assert_eq!(line_of(&sys, 1, 0x2).unwrap().data, 0x0007);
}

#[test]
fn modified_line_is_supplied_and_becomes_owned() {
    let mut sys = four_by_two_by_two();
    write(&mut sys, 0, 0x6, 0x00AA);
    let t = read(&mut sys, 3, 0x6);
    assert_eq!(t.signals, vec![signal(3, 0x6, BusAction::ReadMiss)]);
    assert_eq!(line_of(&sys, 0, 0x6).unwrap().state, CacheState::Owned);
    assert_eq!(
        line_of(&sys, 3, 0x6),
        Some(CacheLine { state: CacheState::Shared, tag: 1, data: 0x00AA })
    );
}

#[test]
fn at_most_one_dirty_or_exclusive_holder_in_a_run() {
    let mut sys = four_by_two_by_two();
    read(&mut sys, 0, 0x0);
    read(&mut sys, 1, 0x0);
    write(&mut sys, 2, 0x0, 0x0001);
    read(&mut sys, 3, 0x0);
    let states: Vec<CacheState> = (0..4)
        .map(|p| line_of(&sys, p, 0x0).map(|l| l.state).unwrap_or(CacheState::Invalid))
        .collect();
    let strong = states
        .iter()
        .filter(|s| matches!(s, CacheState::Modified | CacheState::Exclusive | CacheState::Owned))
        .count();
    assert_eq!(strong, 1);
    assert_eq!(states[2], CacheState::Owned);
    assert_eq!(states[3], CacheState::Shared);
    assert_eq!(states[0], CacheState::Invalid);
    assert_eq!(states[1], CacheState::Invalid);
}

#[test]
fn processors_count() {
    let sys = four_by_two_by_two();
    assert_eq!(sys.processors(), 4);
    for p in 0..4 {
        assert_eq!(sys.cache(p).processor_id(), p);
    }
}
