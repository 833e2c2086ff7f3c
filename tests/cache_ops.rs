use moesi_sim::bus::{BusAction, BusSignal};
use moesi_sim::cache::{index_width, Cache, CacheLine, CacheState};
use moesi_sim::instructions::Instruction;
use moesi_sim::processor::{
    controller_handle_signal, cpu_complete_read, cpu_execute_instruction, maybe_write_back,
};
use moesi_sim::{Event, MemOp};

fn line(state: CacheState, tag: usize, data: u16) -> CacheLine {
    CacheLine { state, tag, data }
}

#[test]
fn cold_cache_is_all_invalid() {
    let c = Cache::new_cold(3, 2, 4);
    assert_eq!(c.processor_id(), 3);
    assert_eq!(c.associativity(), 2);
    assert_eq!(c.sets(), 4);
    assert_eq!(c.blocks(), 8);
    for i in 0..8 {
        assert_eq!(c.get_storage(i), Some(CacheLine::new_cold()));
    }
    assert_eq!(c.get_storage(8), None);
    assert_eq!(CacheLine::new_cold(), line(CacheState::Invalid, 0, 0));
}

#[test]
fn index_width_is_ceil_log2() {
    assert_eq!(index_width(1), 0);
    assert_eq!(index_width(2), 1);
    assert_eq!(index_width(3), 2);
    assert_eq!(index_width(4), 2);
    assert_eq!(index_width(5), 3);
    assert_eq!(index_width(1024), 10);
}

#[test]
fn address_fields() {
    let c = Cache::new_cold(0, 2, 2);
    // one offset bit, one index bit
    assert_eq!(c.get_offset(0b1101), 1);
    assert_eq!(c.get_index(0b1101), 0);
    assert_eq!(c.get_tag(0b1101), 3);
    assert_eq!(c.get_index(0b0110), 1);
    assert_eq!(c.get_tag(0b0110), 1);
    assert_eq!(c.get_address_index(0b0110), 3);
    let c4 = Cache::new_cold(0, 1, 4);
    assert_eq!(c4.get_index(0b11110), 3);
    assert_eq!(c4.get_tag(0b11110), 3);
}

#[test]
fn address_round_trip() {
    let c = Cache::new_cold(0, 2, 4);
    for a in [0usize, 1, 2, 7, 13, 0x1234, 0xFFFF, 0xDEAD_BEEF] {
        let back = c.get_line_address(c.get_tag(a), c.get_index(a)) | c.get_offset(a);
        assert_eq!(back, a);
        let manual = (c.get_tag(a) << 3) | (c.get_index(a) << 1) | c.get_offset(a);
        assert_eq!(manual, a);
    }
}

#[test]
fn set_range_and_copy() {
    let mut c = Cache::new_cold(0, 2, 2);
    assert_eq!(c.get_set_range(1), 2..4);
    c.store_line(0b10, CacheState::Shared, 9);
    assert_eq!(
        c.get_set(1),
        Some(vec![line(CacheState::Shared, 0, 9), CacheLine::new_cold()])
    );
    assert_eq!(c.get_set(0), Some(vec![CacheLine::new_cold(), CacheLine::new_cold()]));
    assert_eq!(c.get_set(2), None);
}

#[test]
fn store_evicts_least_priority_first_slot_on_ties() {
    let mut c = Cache::new_cold(0, 3, 1);
    // all invalid: slot 0 is the victim
    let r = c.store_line(0b000, CacheState::Owned, 1);
    assert_eq!(r, CacheLine::new_cold());
    assert_eq!(c.get_storage(0), Some(line(CacheState::Owned, 0, 1)));
    let r = c.store_line(0b010, CacheState::Shared, 2);
    assert_eq!(r, CacheLine::new_cold());
    assert_eq!(c.get_storage(1), Some(line(CacheState::Shared, 1, 2)));
    let r = c.store_line(0b100, CacheState::Exclusive, 3);
    assert_eq!(r, CacheLine::new_cold());
    // set is now O, S, E: the shared line goes
    let r = c.store_line(0b110, CacheState::Modified, 4);
    assert_eq!(r, line(CacheState::Shared, 1, 2));
    assert_eq!(c.get_storage(1), Some(line(CacheState::Modified, 3, 4)));
    // set is now O, M, E: the exclusive line goes
    let r = c.store_line(0b1000, CacheState::Modified, 5);
    assert_eq!(r, line(CacheState::Exclusive, 2, 3));
    // set is now O, M, M: the first modified line goes
    let r = c.store_line(0b1010, CacheState::Shared, 6);
    assert_eq!(r, line(CacheState::Modified, 3, 4));
    assert_eq!(c.get_storage(1), Some(line(CacheState::Shared, 5, 6)));
}

#[test]
fn store_then_lookup() {
    let mut c = Cache::new_cold(0, 2, 2);
    c.store_line(0b110, CacheState::Exclusive, 0x77);
    assert_eq!(c.get_address(0b110), Some(line(CacheState::Exclusive, 1, 0x77)));
    assert_eq!(c.get_address(0b111), Some(line(CacheState::Exclusive, 1, 0x77)));
    assert_eq!(c.get_address(0b010), None);
    c.store_line(0b010, CacheState::Modified, 0x12);
    assert_eq!(c.get_address(0b010), Some(line(CacheState::Modified, 0, 0x12)));
}

#[test]
fn invalid_line_is_not_found() {
    let mut c = Cache::new_cold(0, 2, 2);
    c.store_line(0b000, CacheState::Invalid, 5);
    assert_eq!(c.get_address(0b000), None);
}

#[test]
fn invalidate_keeps_data_and_records_events() {
    let mut c = Cache::new_cold(4, 2, 1);
    c.store_line(0b00, CacheState::Shared, 7);
    c.store_line(0b10, CacheState::Owned, 8);
    let stored = c.take_events();
    assert_eq!(
        stored,
        vec![
            Event::CacheWrite { cache_i: 4, block_i: 0, line: line(CacheState::Shared, 0, 7) },
            Event::CacheWrite { cache_i: 4, block_i: 1, line: line(CacheState::Owned, 1, 8) },
        ]
    );
    c.invalidate_address(0b00);
    assert_eq!(c.get_address(0b00), None);
    assert_eq!(c.get_storage(0), Some(line(CacheState::Invalid, 0, 7)));
    assert_eq!(c.get_storage(1), Some(line(CacheState::Owned, 1, 8)));
    assert_eq!(
        c.take_events(),
        vec![Event::CacheWrite { cache_i: 4, block_i: 0, line: line(CacheState::Invalid, 0, 7) }]
    );
    assert!(c.take_events().is_empty());
}

#[test]
fn change_state_of_held_line() {
    let mut c = Cache::new_cold(1, 2, 1);
    c.store_line(0b10, CacheState::Exclusive, 3);
    c.take_events();
    c.change_state_address(0b10, CacheState::Owned);
    assert_eq!(c.get_address(0b10), Some(line(CacheState::Owned, 1, 3)));
    assert_eq!(
        c.take_events(),
        vec![Event::CacheWrite { cache_i: 1, block_i: 0, line: line(CacheState::Owned, 1, 3) }]
    );
    c.change_state_address(0b100, CacheState::Owned);
    assert!(c.take_events().is_empty());
}

#[test]
fn state_letters_and_priorities() {
    assert_eq!(CacheState::Modified.to_letter(), "M");
    assert_eq!(CacheState::Owned.to_letter(), "O");
    assert_eq!(CacheState::Exclusive.to_letter(), "E");
    assert_eq!(CacheState::Shared.to_letter(), "S");
    assert_eq!(CacheState::Invalid.to_letter(), "I");
    assert!(CacheState::Invalid.priority() < CacheState::Shared.priority());
    assert!(CacheState::Shared.priority() < CacheState::Exclusive.priority());
    assert!(CacheState::Exclusive.priority() < CacheState::Modified.priority());
    assert!(CacheState::Modified.priority() < CacheState::Owned.priority());
}

#[test]
fn instruction_kind_names() {
    assert_eq!(Instruction::Calc.get_type_str(), "Calc");
    assert_eq!(Instruction::Read { address: 2 }.get_type_str(), "Read");
    assert_eq!(Instruction::Write { address: 2, data: 1 }.get_type_str(), "Write");
}

#[test]
fn controller_reactions() {
    let mut c = Cache::new_cold(1, 2, 2);
    c.store_line(0b000, CacheState::Exclusive, 0x10);
    let rm = BusSignal { origin: 0, address: 0b000, action: BusAction::ReadMiss };
    assert_eq!(controller_handle_signal(&mut c, &rm), Some(Some(0x10)));
    assert_eq!(c.get_address(0b000).unwrap().state, CacheState::Owned);
    let miss = BusSignal { origin: 0, address: 0b100, action: BusAction::ReadMiss };
    assert_eq!(controller_handle_signal(&mut c, &miss), Some(None));
    let wm = BusSignal { origin: 0, address: 0b000, action: BusAction::WriteMem(3) };
    assert_eq!(controller_handle_signal(&mut c, &wm), None);
    assert_eq!(c.get_address(0b000).unwrap().data, 0x10);
    let inv = BusSignal { origin: 0, address: 0b000, action: BusAction::Invalidate };
    assert_eq!(controller_handle_signal(&mut c, &inv), None);
    assert_eq!(c.get_address(0b000), None);
}

#[test]
fn shared_holder_supplies_and_stays_shared() {
    let mut c = Cache::new_cold(1, 1, 1);
    c.store_line(0b0, CacheState::Shared, 0x44);
    let rm = BusSignal { origin: 0, address: 0b0, action: BusAction::ReadMiss };
    assert_eq!(controller_handle_signal(&mut c, &rm), Some(Some(0x44)));
    assert_eq!(c.get_address(0b0).unwrap().state, CacheState::Shared);
}

#[test]
fn write_backs_only_for_dirty_lines() {
    let wb = |s| maybe_write_back(6, line(s, 1, 9), 2);
    assert_eq!(
        wb(CacheState::Modified),
        Some(BusSignal { origin: 2, address: 6, action: BusAction::WriteMem(9) })
    );
    assert_eq!(
        wb(CacheState::Owned),
        Some(BusSignal { origin: 2, address: 6, action: BusAction::WriteMem(9) })
    );
    assert_eq!(wb(CacheState::Exclusive), None);
    assert_eq!(wb(CacheState::Shared), None);
    assert_eq!(wb(CacheState::Invalid), None);
}

#[test]
fn front_end_read_miss_then_completion() {
    let mut c = Cache::new_cold(2, 1, 2);
    let step = cpu_execute_instruction(&mut c, Instruction::Read { address: 0b10 }, 2);
    assert!(step.awaits_data);
    assert_eq!(step.alert, Some(Event::Alert { processor_i: 2, address: 0b10, op: MemOp::Read }));
    assert_eq!(
        step.signals,
        vec![BusSignal { origin: 2, address: 0b10, action: BusAction::ReadMiss }]
    );
    assert_eq!(cpu_complete_read(&mut c, 0b10, CacheState::Exclusive, 5, 2), None);
    assert_eq!(c.get_address(0b10), Some(line(CacheState::Exclusive, 0, 5)));
    let hit = cpu_execute_instruction(&mut c, Instruction::Read { address: 0b10 }, 2);
    assert!(!hit.awaits_data);
    assert_eq!(hit.alert, None);
    assert!(hit.signals.is_empty());
}

#[test]
fn front_end_completion_writes_back_evicted_owned_line() {
    let mut c = Cache::new_cold(2, 1, 2);
    c.store_line(0b110, CacheState::Owned, 0x33);
    // 0b010 maps to the same set with another tag
    let wb = cpu_complete_read(&mut c, 0b010, CacheState::Shared, 1, 2);
    assert_eq!(wb, Some(BusSignal { origin: 2, address: 0b110, action: BusAction::WriteMem(0x33) }));
    assert_eq!(c.get_address(0b110), None);
}

#[test]
fn front_end_write_over_modified_line_of_other_block() {
    let mut c = Cache::new_cold(0, 1, 1);
    c.store_line(0b00, CacheState::Modified, 0x99);
    let step = cpu_execute_instruction(&mut c, Instruction::Write { address: 0b10, data: 1 }, 0);
    assert_eq!(step.alert, Some(Event::Alert { processor_i: 0, address: 0b10, op: MemOp::Write }));
    assert_eq!(
        step.signals,
        vec![BusSignal { origin: 0, address: 0b00, action: BusAction::WriteMem(0x99) }]
    );
    assert_eq!(c.get_address(0b10), Some(line(CacheState::Modified, 1, 1)));
}

#[test]
fn front_end_write_hit_on_shared_line() {
    let mut c = Cache::new_cold(0, 1, 1);
    c.store_line(0b10, CacheState::Shared, 0x5);
    let step = cpu_execute_instruction(&mut c, Instruction::Write { address: 0b10, data: 6 }, 0);
    assert_eq!(step.alert, None);
    assert_eq!(
        step.signals,
        vec![BusSignal { origin: 0, address: 0b10, action: BusAction::Invalidate }]
    );
    assert_eq!(c.get_address(0b10), Some(line(CacheState::Modified, 1, 6)));
}

#[test]
fn front_end_calc_does_nothing() {
    let mut c = Cache::new_cold(0, 1, 1);
    let step = cpu_execute_instruction(&mut c, Instruction::Calc, 0);
    assert!(!step.awaits_data);
    assert_eq!(step.alert, None);
    assert!(step.signals.is_empty());
    assert!(c.take_events().is_empty());
}
