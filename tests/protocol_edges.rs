use moesi_sim::bus::{BusAction, BusSignal};
use moesi_sim::cache::{Cache, CacheLine, CacheState};
use moesi_sim::instructions::Instruction;
use moesi_sim::system::{SocProperties, System};

fn machine() -> System {
    System::new(SocProperties {
        num_processors: 4,
        cache_associativity: 2,
        cache_sets: 2,
        main_memory_blocks: 8,
    })
}

fn state(sys: &System, p: usize, address: usize) -> CacheState {
    sys.cache(p).get_address(address).map(|l| l.state).unwrap_or(CacheState::Invalid)
}

#[test]
fn overwriting_a_modified_line_of_another_block_sends_no_invalidation() {
    let mut sys = machine();
    sys.execute(0, Instruction::Write { address: 0x0, data: 1 });
    sys.execute(0, Instruction::Write { address: 0x4, data: 2 });
    sys.execute(1, Instruction::Read { address: 0x8 });
    assert_eq!(state(&sys, 1, 0x8), CacheState::Exclusive);
    let t = sys.execute(0, Instruction::Write { address: 0x8, data: 3 });
    assert_eq!(t.signals, vec![BusSignal { origin: 0, address: 0x0, action: BusAction::WriteMem(1) }]);
    // the peer keeps its exclusive copy beside the new modified one
    assert_eq!(state(&sys, 0, 0x8), CacheState::Modified);
    assert_eq!(state(&sys, 1, 0x8), CacheState::Exclusive);
}

#[test]
fn evicting_an_owned_line_leaves_its_sharer_alone() {
    let mut sys = machine();
    sys.execute(0, Instruction::Read { address: 0x0 });
    sys.execute(1, Instruction::Read { address: 0x0 });
    sys.execute(0, Instruction::Read { address: 0x4 });
    sys.execute(1, Instruction::Read { address: 0x4 });
    assert_eq!(state(&sys, 0, 0x0), CacheState::Owned);
    assert_eq!(state(&sys, 0, 0x4), CacheState::Owned);
    let t = sys.execute(0, Instruction::Read { address: 0x8 });
    assert_eq!(
        t.signals,
        vec![
            BusSignal { origin: 0, address: 0x8, action: BusAction::ReadMiss },
            BusSignal { origin: 0, address: 0x0, action: BusAction::WriteMem(0) },
        ]
    );
    assert_eq!(state(&sys, 0, 0x0), CacheState::Invalid);
    assert_eq!(state(&sys, 1, 0x0), CacheState::Shared);
    for p in [0, 2, 3] {
        assert_eq!(state(&sys, p, 0x0), CacheState::Invalid);
    }
}

#[test]
fn write_beside_an_older_copy_keeps_both() {
    let mut sys = machine();
    sys.execute(0, Instruction::Read { address: 0x0 });
    sys.execute(1, Instruction::Read { address: 0x0 });
    // cache 1 holds 0x0 shared in its first slot; the invalid second slot is the victim
    sys.execute(1, Instruction::Write { address: 0x0, data: 0x55 });
    let set = sys.cache(1).get_set(0).unwrap();
    assert_eq!(set[0], CacheLine { state: CacheState::Shared, tag: 0, data: 0 });
    assert_eq!(set[1], CacheLine { state: CacheState::Modified, tag: 0, data: 0x55 });
    assert_eq!(state(&sys, 1, 0x0), CacheState::Shared);
    assert_eq!(state(&sys, 0, 0x0), CacheState::Invalid);
}

#[test]
fn transitions_of_a_read_miss_follow_the_table() {
    let mut sys = machine();
    sys.execute(0, Instruction::Write { address: 0x2, data: 9 });
    sys.execute(1, Instruction::Read { address: 0x6 });
    sys.execute(2, Instruction::Read { address: 0x6 });
    // modified becomes owned, exclusive becomes owned, shared stays shared
    sys.execute(3, Instruction::Read { address: 0x2 });
    assert_eq!(state(&sys, 0, 0x2), CacheState::Owned);
    assert_eq!(state(&sys, 3, 0x2), CacheState::Shared);
    assert_eq!(state(&sys, 1, 0x6), CacheState::Owned);
    assert_eq!(state(&sys, 2, 0x6), CacheState::Shared);
    sys.execute(3, Instruction::Read { address: 0x6 });
    assert_eq!(state(&sys, 1, 0x6), CacheState::Owned);
    assert_eq!(state(&sys, 2, 0x6), CacheState::Shared);
    assert_eq!(state(&sys, 3, 0x6), CacheState::Shared);
}

#[test]
fn line_changed_in_place() {
    let mut c = Cache::new_cold(0, 2, 2);
    c.store_line(0b110, CacheState::Exclusive, 4);
    c.take_events();
    match c.get_address_mut(0b110) {
        Some(line) => line.state = CacheState::Owned,
        None => panic!("the line was just stored"),
    }
    assert_eq!(c.get_address(0b110), Some(CacheLine { state: CacheState::Owned, tag: 1, data: 4 }));
    assert!(c.take_events().is_empty());
    assert!(c.get_address_mut(0b100).is_none());
}

#[test]
fn single_set_cache_uses_set_zero() {
    let mut c = Cache::new_cold(0, 2, 1);
    for a in [0usize, 2, 6, 0x1000] {
        assert_eq!(c.get_index(a), 0);
    }
    assert_eq!(c.get_tag(6), 3);
    c.store_line(6, CacheState::Shared, 1);
    assert_eq!(c.get_storage(0), Some(CacheLine { state: CacheState::Shared, tag: 3, data: 1 }));
}
