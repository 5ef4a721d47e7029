//! Page states, entries, the scheduler's queue decisions and the IPC
//! construction helpers.

use sunrise_kernel::error::ArithmeticOperation;
use sunrise_kernel::interrupts::{check_thread_killed, ThreadState, UserspaceHardwareContext};
use sunrise_kernel::ipc::{encode_bytes, PortHandler, SessionWrapper};
use sunrise_kernel::page_state::PageState;
use sunrise_kernel::scheduler::{
    add_to_schedule_queue,
    find_next_process_to_run,
    is_in_schedule_queue,
    schedule,
    unschedule,
    Process,
    ProcessState,
};
use sunrise_kernel::table::{Entry, HierarchicalEntry, MappingFlags, Table};
use sunrise_kernel::flush::NoFlush;
use sunrise_kernel::devices::{ChannelSelector, PITPorts};

#[test]
fn page_state_accessors() {
    let s: PageState<u32> = PageState::Present(7);
    assert_eq!(s.unwrap(), 7);

    let s: PageState<u32> = PageState::Present(3);
    assert_eq!(s.as_option(), Some(&3));
    assert_eq!(PageState::<u32>::Guarded.as_option(), None);
    assert_eq!(PageState::<u32>::Available.as_option(), None);

    let doubled = PageState::Present(21u32).map(|v| v * 2);
    assert_eq!(doubled, PageState::Present(42));
    assert_eq!(PageState::<u32>::Guarded.map(|v| v * 2), PageState::Guarded);
    assert_eq!(PageState::<u32>::Available.map(|v| v * 2), PageState::Available);
}

#[test]
fn entry_operations() {
    let mut e = Entry::Available;
    assert!(e.is_unused());
    assert!(!e.is_guard());

    e.set(0x3000, MappingFlags(5));
    assert!(!e.is_unused());
    assert_eq!(e.pointed_frame(), PageState::Present(0x3000));
    assert_eq!(e.flags(), MappingFlags(5));

    let previous = e.set_unused();
    assert_eq!(previous, PageState::Present(0x3000));
    assert!(e.is_unused());

    e.set_guard();
    assert!(e.is_guard());
    assert_eq!(e.pointed_frame(), PageState::Guarded);
}

#[test]
fn table_single_entry_operations() {
    let mut t = Table::new_zeroed(0, 4);
    assert_eq!(t.table_level(), 0);
    t.map_nth_entry::<NoFlush>(1, 0x8000, MappingFlags(0));
    t.guard_nth_entry::<NoFlush>(2);
    assert!(t.entries[0].is_unused());
    assert_eq!(t.entries[1].pointed_frame(), PageState::Present(0x8000));
    assert!(t.entries[2].is_guard());
    t.unmap_nth_entry::<NoFlush>(1);
    assert!(t.entries[1].is_unused());
    t.guard_all_entries::<NoFlush>();
    assert!(t.entries[3].is_guard());
    t.zero::<NoFlush>();
    assert!(t.entries[2].is_unused());
}

#[test]
fn scheduler_queue_politics() {
    let mut queue: Vec<Process> = Vec::new();
    let current = Process { pid: 1, pstate: ProcessState::Running };

    let p2 = Process { pid: 2, pstate: ProcessState::Stopped };
    let p3 = Process { pid: 3, pstate: ProcessState::Stopped };
    add_to_schedule_queue(&mut queue, &Some(current), p2);
    add_to_schedule_queue(&mut queue, &Some(current), p3);
    assert_eq!(queue[0].pstate, ProcessState::Scheduled);
    assert!(is_in_schedule_queue(&queue, &Some(current), &p2));
    assert!(is_in_schedule_queue(&queue, &Some(current), &current));
    assert!(!is_in_schedule_queue(&queue, &Some(current), &Process {
        pid: 9,
        pstate: ProcessState::Stopped,
    }));

    // The first process is locked: the second is picked, and the current
    // process rotates to the back.
    assert_eq!(find_next_process_to_run(&queue, &vec![false, true]), Some(1));
    let next = schedule(&mut queue, current, &vec![false, true]);
    assert_eq!(next.map(|p| p.pid), Some(3));
    assert_eq!(queue.len(), 2);
    assert_eq!(queue[0].pid, 2);
    assert_eq!(queue[1].pid, 1);

    // Nobody is lockable: keep running.
    assert_eq!(schedule(&mut queue, current, &vec![false, false]), None);
    assert_eq!(queue.len(), 2);

    // Unscheduling removes the current process instead of re-queueing it.
    let next = unschedule(&mut queue, current, &vec![true, false]);
    assert_eq!(next.map(|p| p.pid), Some(2));
    assert_eq!(queue.len(), 1);
    assert_eq!(queue[0].pid, 1);
}

#[test]
fn thread_killed_check() {
    assert!(check_thread_killed(ThreadState::Killed));
    assert!(!check_thread_killed(ThreadState::Running));
    assert!(!check_thread_killed(ThreadState::Stopped));

    let ctx = UserspaceHardwareContext::default();
    assert_eq!(ctx.eip, 0);
}

#[test]
fn service_name_encoding() {
    assert_eq!(encode_bytes(b"sm:"), 0x3A6D73);
    assert_eq!(encode_bytes(b""), 0);
    assert_eq!(encode_bytes(b"vi:"), (b'v' as u64) | (b'i' as u64) << 8 | (b':' as u64) << 16);
    // Seven bytes fill everything but the top byte.
    assert_eq!(encode_bytes(b"abcdefg"), 0x0067666564636261);
}

#[test]
fn ipc_wrappers_hold_their_handles() {
    let dispatch = |_cmd: u32| 0u32;
    let port: PortHandler<u8, _> = PortHandler::new(17, dispatch);
    assert_eq!(port.handle, 17);
    let port: PortHandler<u8, _> = PortHandler::new_managed(3, dispatch);
    assert_eq!(port.handle, 3);

    let session = SessionWrapper::new(5, 42u8, dispatch);
    assert_eq!(session.handle, 5);
    assert_eq!(session.object, 42);
    assert!(session.buf.iter().all(|b| *b == 0));
    assert!(session.pointer_buf.iter().all(|b| *b == 0));
    assert_eq!(session.buf.len(), 0x100);
    assert_eq!(session.pointer_buf.len(), 0x300);
}

#[test]
fn arithmetic_operation_symbols() {
    assert_eq!(ArithmeticOperation::Add.symbol(), "+");
    assert_eq!(ArithmeticOperation::Sub.symbol(), "-");
    assert_eq!(ArithmeticOperation::Mul.symbol(), "*");
    assert_eq!(ArithmeticOperation::Div.symbol(), "/");
    assert_eq!(ArithmeticOperation::Mod.symbol(), "%");
    assert_eq!(ArithmeticOperation::Pow.symbol(), "**");
}

#[test]
fn page_state_exclusivity() {
    for s in [PageState::Available, PageState::Guarded, PageState::Present(1u32)] {
        let ways = [
            matches!(s, PageState::Available),
            matches!(s, PageState::Guarded),
            matches!(s, PageState::Present(_)),
        ];
        assert_eq!(ways.iter().filter(|b| **b).count(), 1);
    }
}

#[test]
fn pit_reload_value_goes_out_low_byte_first() {
    let mut ports = PITPorts {
        port_chan_0: Vec::new(),
        port_chan_2: Vec::new(),
        port_cmd: Vec::new(),
        port_61: Vec::new(),
    };
    ports.write_reload_value(ChannelSelector::Channel0, 0x2E9B);
    assert_eq!(ports.port_chan_0, vec![0x9B, 0x2E]);
    assert!(ports.port_chan_2.is_empty());
    ports.write_reload_value(ChannelSelector::Channel2, 1);
    assert_eq!(ports.port_chan_2, vec![1, 0]);
}
