use charlotte_os::system::SystemControl;
use charlotte_os::bsp::qemu_virt::{get_mtimecmp_addr, hart_slot_offset, QemuVirt};
use charlotte_os::data_struct::ring_buf::RingBuffer;
use charlotte_os::driver::plic::InterruptRequest;
use charlotte_os::driver::uart::Uart;
use charlotte_os::driver::uart_polling::UartPolling;
use charlotte_os::mm::buddy::BuddySystemAllocator;
use charlotte_os::mm::init_heap;
use charlotte_os::task::scheduler::Scheduler;
use charlotte_os::trap::interrupts::service::uart_service::{
    uart_interrupt_handler, UartInterrupt, UartService,
};
use charlotte_os::trap::interrupts::{
    disable_machine_interrupts, enable_machine_interrupts, init_machine_interrupts,
    read_and_disable_machine_interrupts, restore_interrupts, set_mtimecmp, InterruptCause,
    TICK_CYCLES,
};
use charlotte_os::task::context::TaskContext;
use charlotte_os::trap::{
    parse_trap_cause, trap_entry, trap_handler, trap_vector, ExceptionCause, TrapAction,
    TrapCause,
};

const INTERRUPT: usize = 1usize << (usize::BITS - 1);

#[test]
fn interrupt_codes() {
    assert_eq!(InterruptCause::from_code(7), InterruptCause::MachineTimerInterrupt);
    assert_eq!(InterruptCause::from_code(11), InterruptCause::MachineExternalInterrupt);
    assert_eq!(InterruptCause::from_code(0), InterruptCause::Unknown);
    assert_eq!(InterruptCause::from_code(3), InterruptCause::Unknown);
    assert_eq!(InterruptCause::from_code(usize::MAX >> 1), InterruptCause::Unknown);
}

#[test]
fn cause_register_is_decoded() {
    assert_eq!(
        parse_trap_cause(INTERRUPT | 7),
        TrapCause::Interrupt(InterruptCause::MachineTimerInterrupt)
    );
    assert_eq!(
        parse_trap_cause(INTERRUPT | 11),
        TrapCause::Interrupt(InterruptCause::MachineExternalInterrupt)
    );
    assert_eq!(parse_trap_cause(INTERRUPT), TrapCause::Interrupt(InterruptCause::Unknown));
    assert_eq!(parse_trap_cause(INTERRUPT | 9), TrapCause::Interrupt(InterruptCause::Unknown));
    assert_eq!(parse_trap_cause(usize::MAX), TrapCause::Interrupt(InterruptCause::Unknown));
    assert_eq!(parse_trap_cause(7), TrapCause::Exception(ExceptionCause::Unknown));
    assert_eq!(parse_trap_cause(0), TrapCause::Exception(ExceptionCause::Unknown));
    assert_eq!(parse_trap_cause(INTERRUPT - 1), TrapCause::Exception(ExceptionCause::Unknown));
}

fn booted() -> (Scheduler, BuddySystemAllocator) {
    let mut heap = BuddySystemAllocator::new();
    heap.init(0x8000_0000, 0x8010_0000);
    let mut scheduler = Scheduler::new();
    scheduler.init(&mut heap, 0x8000_1000, 0x8000_2000).unwrap();
    scheduler.spawn(&mut heap, 0x8000_1000, 0x8000_3000, 4096, 1).unwrap();
    (scheduler, heap)
}

#[test]
fn timer_tick_rearms_and_reschedules() {
    let (mut scheduler, mut heap) = booted();
    let outcome = trap_handler(&mut scheduler, &mut heap, 0x1000, INTERRUPT | 7, 1_000_000);
    assert_eq!(outcome.mepc, 0x1000);
    assert_eq!(outcome.action, TrapAction::Reschedule { deadline: 1_100_000, next: 1 });
    assert_eq!(scheduler.current_task_id(), Some(1));
}

#[test]
fn other_traps_leave_the_scheduler_alone() {
    let (mut scheduler, mut heap) = booted();
    let ready = scheduler.ready_ids();
    let external = trap_handler(&mut scheduler, &mut heap, 0x2000, INTERRUPT | 11, 0);
    assert_eq!(external.mepc, 0x2000);
    assert_eq!(external.action, TrapAction::ServiceExternal);
    let unknown = trap_handler(&mut scheduler, &mut heap, 0x2004, INTERRUPT | 5, 0);
    assert_eq!(unknown.mepc, 0x2004);
    assert_eq!(unknown.action, TrapAction::UnknownInterrupt);
    // An exception does not advance the program counter.
    let exception = trap_handler(&mut scheduler, &mut heap, 0x2008, 2, u64::MAX);
    assert_eq!(exception.mepc, 0x2008);
    assert_eq!(exception.action, TrapAction::UnknownException);
    assert_eq!(scheduler.current_task_id(), None);
    assert_eq!(scheduler.ready_ids(), ready);
}

#[test]
fn trap_entry_restores_what_it_stored() {
    let (mut scheduler, mut heap) = booted();
    scheduler.spawn(&mut heap, 0x8000_1000, 0x8000_4000, 4096, 1).unwrap();
    assert_eq!(scheduler.run_scheduler(&mut heap), 1);
    let first_of_two = scheduler.context(2).unwrap();
    let mut regs = scheduler.context(1).unwrap();
    regs.s3 = 33;
    regs.a0 = 5;
    // Task 1 is preempted at 0x40: task 2, which has not run yet, starts in
    // the trampoline with the registers it was given.
    let (restored, outcome) = trap_entry(&mut scheduler, &mut heap, regs, 0x40, INTERRUPT | 7, 0);
    assert_eq!(outcome.action, TrapAction::Reschedule { deadline: 100_000, next: 2 });
    assert_eq!(restored, first_of_two);
    assert_eq!(outcome.mepc, 0x8000_1000);
    assert_eq!(scheduler.context(1), Some(TaskContext { mepc: 0x40, ..regs }));
    // An external interrupt at 0x44 comes back to task 2 at 0x44.
    let mut other = restored;
    other.t0 = 9;
    let (same, outcome) = trap_entry(&mut scheduler, &mut heap, other, 0x44, INTERRUPT | 11, 0);
    assert_eq!(outcome.action, TrapAction::ServiceExternal);
    assert_eq!(outcome.mepc, 0x44);
    assert_eq!(same, TaskContext { mepc: 0x44, ..other });
    assert_eq!(scheduler.context(2), Some(TaskContext { mepc: 0x44, ..other }));
    // Task 2 is preempted at 0x48: task 1 goes on at 0x40 with what it had.
    let (back, outcome) = trap_entry(&mut scheduler, &mut heap, other, 0x48, INTERRUPT | 7, 7);
    assert_eq!(outcome.action, TrapAction::Reschedule { deadline: 100_007, next: 1 });
    assert_eq!(outcome.mepc, 0x40);
    assert_eq!(back, TaskContext { mepc: 0x40, ..regs });
    assert_eq!(back.s3, 33);
    // Task 1 is preempted at 0x50: task 2 goes on at 0x48.
    let (again, outcome) = trap_entry(&mut scheduler, &mut heap, back, 0x50, INTERRUPT | 7, 9);
    assert_eq!(outcome.mepc, 0x48);
    assert_eq!(again, TaskContext { mepc: 0x48, ..other });
}

#[test]
fn tick_with_one_task_resumes_it_where_it_was() {
    let mut heap = BuddySystemAllocator::new();
    heap.init(0x8000_0000, 0x8010_0000);
    let mut scheduler = Scheduler::new();
    scheduler.init(&mut heap, 0x8000_1000, 0x8000_2000).unwrap();
    assert_eq!(scheduler.run_scheduler(&mut heap), 0);
    let regs = TaskContext { sp: 0x8000_0f00, s1: 3, ..TaskContext::zero() };
    let (same, outcome) = trap_entry(&mut scheduler, &mut heap, regs, 0x66, INTERRUPT | 7, 0);
    assert_eq!(outcome.action, TrapAction::Reschedule { deadline: 100_000, next: 0 });
    assert_eq!(outcome.mepc, 0x66);
    assert_eq!(same, TaskContext { mepc: 0x66, ..regs });
}

#[test]
fn trap_before_the_first_task_keeps_the_registers() {
    let (mut scheduler, mut heap) = booted();
    let regs = TaskContext { sp: 0x8000_0f00, ..TaskContext::zero() };
    let (same, outcome) = trap_entry(&mut scheduler, &mut heap, regs, 0x10, 3, 0);
    assert_eq!(outcome.action, TrapAction::UnknownException);
    assert_eq!(outcome.mepc, 0x10);
    assert_eq!(same, TaskContext { mepc: 0x10, ..regs });
    assert_eq!(scheduler.current_task_id(), None);
}

#[test]
fn tick_period_is_ten_milliseconds() {
    assert_eq!(TICK_CYCLES, 100_000);
    assert_eq!(set_mtimecmp(0), 100_000);
    assert_eq!(set_mtimecmp(123), 100_123);
    assert_eq!(set_mtimecmp(u64::MAX - 100_000), u64::MAX);
}

#[test]
fn interrupt_enable_bit() {
    assert_eq!(disable_machine_interrupts(0x1808), 0x1800);
    assert_eq!(disable_machine_interrupts(0x1800), 0x1800);
    assert_eq!(enable_machine_interrupts(0x1800), 0x1808);
    assert_eq!(enable_machine_interrupts(0x1808), 0x1808);
    assert_eq!(read_and_disable_machine_interrupts(0x1808), (0x1808, 0x1800));
    assert_eq!(read_and_disable_machine_interrupts(0x80), (0x80, 0x80));
    assert_eq!(restore_interrupts(0x1800, 0x1808), 0x1808);
    assert_eq!(restore_interrupts(0x1800, 0x1800), 0x1800);
    assert_eq!(init_machine_interrupts(0x1800, 0), (0x1808, 0x880));
    assert_eq!(init_machine_interrupts(0, 0x3), (0x8, 0x883));
}

#[test]
fn lock_safety() {
    // Two nested guards on a hart with interrupts enabled.
    let start = 0x1888usize;
    let (saved_outer, held) = read_and_disable_machine_interrupts(start);
    assert_eq!(held & 0x8, 0);
    let (saved_inner, nested) = read_and_disable_machine_interrupts(held);
    assert_eq!(nested & 0x8, 0);
    let after_inner = restore_interrupts(nested, saved_inner);
    assert_eq!(after_inner & 0x8, 0);
    let after_outer = restore_interrupts(after_inner, saved_outer);
    assert_eq!(after_outer, start);
    // With interrupts disabled before, they stay disabled after.
    let (saved, held) = read_and_disable_machine_interrupts(0x1880);
    assert_eq!(restore_interrupts(held, saved), 0x1880);
}

#[test]
fn timer_compare_addresses() {
    assert_eq!(hart_slot_offset(0), 0);
    assert_eq!(hart_slot_offset(15), 120);
    assert_eq!(hart_slot_offset(16), 128);
    assert_eq!(hart_slot_offset(127), 1016);
    assert_eq!(get_mtimecmp_addr(0), 0x200_4000);
    assert_eq!(get_mtimecmp_addr(1), 0x200_4008);
    assert_eq!(get_mtimecmp_addr(15), 0x200_4078);
    assert_eq!(get_mtimecmp_addr(16), 0x200_4080);
    assert_eq!(get_mtimecmp_addr(127), 0x200_43f8);
}

#[test]
fn finisher_words() {
    assert_eq!(QemuVirt.shutdown(), 0x5555);
    assert_eq!(QemuVirt.reboot(), 0x7777);
    assert_eq!(QemuVirt.fail_word(7), 0x0007_3333);
    assert_eq!(QemuVirt.fail_word(0), 0x3333);
    assert_eq!(QemuVirt.fail_word(0xffff), 0xffff_3333);
}

#[test]
fn interrupt_request_numbers() {
    assert_eq!(InterruptRequest::num_to_irq(10), InterruptRequest::UART);
    assert_eq!(InterruptRequest::num_to_irq(0), InterruptRequest::UNKNOWN);
    assert_eq!(InterruptRequest::num_to_irq(717), InterruptRequest::UNKNOWN);
    assert_eq!(InterruptRequest::UART.to_num(), 10);
    assert_eq!(InterruptRequest::UNKNOWN.to_num(), 717);
}

#[test]
fn uart_addresses_and_masks() {
    let uart = Uart::new(0x1000_0000);
    assert_eq!(uart.base_address(), 0x1000_0000);
    assert_eq!(uart.register(5), 0x1000_0005);
    assert_eq!(UartPolling::new().base_address(), 0x1000_0000);
    assert_eq!(uart.disable_receive_interrupt(0x0f), 0x0e);
    assert_eq!(uart.enable_receive_interrupt(0x0e), 0x0f);
    assert_eq!(uart.disable_transmit_interrupt(0x0f), 0x0d);
    assert_eq!(uart.enable_transmit_interrupt(0x01), 0x03);
}

#[test]
fn uart_interrupt_causes() {
    assert_eq!(uart_interrupt_handler(0x01), UartInterrupt::Spurious);
    assert_eq!(uart_interrupt_handler(0xc1), UartInterrupt::Spurious);
    assert_eq!(uart_interrupt_handler(0x02), UartInterrupt::TransmitterEmpty);
    assert_eq!(uart_interrupt_handler(0xc2), UartInterrupt::TransmitterEmpty);
    assert_eq!(uart_interrupt_handler(0x04), UartInterrupt::ReceiverReady);
    assert_eq!(uart_interrupt_handler(0x06), UartInterrupt::LineStatus);
    assert_eq!(uart_interrupt_handler(0x0c), UartInterrupt::Other);
    assert_eq!(uart_interrupt_handler(0x00), UartInterrupt::Other);
}

#[test]
fn uart_service_sends_sixteen_bytes_at_a_time() {
    let mut service = UartService::new();
    for i in 0..20u8 {
        assert_eq!(service.transmit_buffer.push(i), Ok(()));
    }
    let (first, drained) = service.send_data();
    assert_eq!(first, (0..16).collect::<Vec<u8>>());
    assert!(!drained);
    let (second, drained) = service.send_data();
    assert_eq!(second, vec![16, 17, 18, 19]);
    assert!(drained);
    let (third, drained) = service.send_data();
    assert!(third.is_empty());
    assert!(drained);
    let rb: &RingBuffer<u8, 4096> = &service.receive_buffer;
    assert!(rb.is_empty());
}

#[test]
fn heap_start_is_rounded_up_to_a_page() {
    let mut heap = BuddySystemAllocator::new();
    init_heap(&mut heap, 0x8000_f001, 0x8001_4000);
    // The region starts at 0x8001_0000 and is 16 KiB long.
    assert_eq!(heap.free_blocks(2), vec![0x8001_0000]);
    let mut aligned = BuddySystemAllocator::new();
    init_heap(&mut aligned, 0x8001_0000, 0x8001_1000);
    assert_eq!(aligned.free_blocks(0), vec![0x8001_0000]);
}

#[test]
fn trap_vector_selects_direct_mode() {
    assert_eq!(trap_vector(0x8000_0100), 0x8000_0100);
    assert_eq!(trap_vector(0x8000_0103), 0x8000_0100);
    assert_eq!(trap_vector(0x8000_0106), 0x8000_0104);
    assert_eq!(trap_vector(0), 0);
}
