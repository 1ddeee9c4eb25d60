use lantern_hal::riscv64;
use lantern_hal::x86_64::{self, IdtEntry};
use lantern_hal::{Hal, MessageTag};

#[test]
fn riscv64_initial_frame_places_pc_sp_and_arg0() {
    let frame = riscv64::Hardware::initial_trap_frame(0x8020_0000, 0x8100_0000, 7);
    assert_eq!(frame.raw_word(31), 0x8020_0000);
    assert_eq!(frame.raw_word(1), 0x8100_0000);
    assert_eq!(frame.raw_word(9), 7);
    assert_eq!(frame.raw_word(0), 0);
    assert_eq!(frame.raw_word(10), 0);
    assert_eq!(frame.mr(0), 0);
    assert_eq!(frame.syscall_number(), 0);
}

fn saved_registers() -> [usize; 32] {
    let mut regs = [0usize; 32];
    for (i, r) in regs.iter_mut().enumerate() {
        *r = 0x100 + i;
    }
    regs[13] = 0xDEAD_BEEF_ABCF_1234;
    regs[31] = 0x8020_1000;
    regs
}

#[test]
fn riscv64_other_trap_causes_are_not_handled() {
    let regs = saved_registers();
    assert!(riscv64::trap_entry_frame(2, &regs).is_none());
    assert!(riscv64::trap_entry_frame(9, &regs).is_none());
}

#[test]
fn riscv64_ecall_frame_reads_the_abi_registers() {
    let regs = saved_registers();
    let frame = riscv64::trap_entry_frame(8, &regs).unwrap();
    assert_eq!(frame.mr(0), 0x100 + 9);
    assert_eq!(frame.mr(3), 0x100 + 12);
    assert_eq!(frame.tag(), MessageTag { label: 0xDEAD_BEEF, length: 0xABC, extra_caps: 0xF, flags: 0x1234 });
    assert_eq!(frame.syscall_number(), 0x100 + 16);
    assert_eq!(frame.raw_word(31), 0x8020_1004);
    assert_eq!(frame.raw_word(5), 0x105);
}

#[test]
fn riscv64_untouched_frame_resumes_after_the_ecall() {
    let regs = saved_registers();
    let frame = riscv64::trap_entry_frame(8, &regs).unwrap();
    let mut expected = regs;
    expected[31] = 0x8020_1004;
    assert_eq!(riscv64::trap_exit_registers(&frame), expected);
}

#[test]
fn riscv64_reply_lands_in_a0_to_a4() {
    let regs = saved_registers();
    let mut frame = riscv64::trap_entry_frame(8, &regs).unwrap();
    frame.set_mr(0, 99);
    frame.set_tag(MessageTag { label: 1, length: 0, extra_caps: 0, flags: 1 });
    let out = riscv64::trap_exit_registers(&frame);
    assert_eq!(out[9], 99);
    assert_eq!(out[13], 0x1_0000_0001);
    assert_eq!(out[10], 0x100 + 10);
}

#[test]
fn riscv64_context_switch_replaces_sepc() {
    let regs = saved_registers();
    let mut frame = riscv64::trap_entry_frame(8, &regs).unwrap();
    frame.set_raw_word(31, 0x8030_0000);
    frame.set_raw_word(1, 0x8200_0000);
    let out = riscv64::trap_exit_registers(&frame);
    assert_eq!(out[31], 0x8030_0000);
    assert_eq!(out[1], 0x8200_0000);
}

#[test]
fn riscv64_sepc_advance_wraps() {
    let mut regs = saved_registers();
    regs[31] = usize::MAX - 1;
    let frame = riscv64::trap_entry_frame(8, &regs).unwrap();
    assert_eq!(frame.raw_word(31), 2);
}

#[test]
fn riscv64_satp_selects_sv39_and_root_ppn() {
    assert_eq!(riscv64::sv39_satp(0x8020_0000), 0x8000_0000_0008_0200);
    assert_eq!(riscv64::sv39_satp(0), 0x8000_0000_0000_0000);
}

#[test]
fn x86_64_interrupt_gate_splits_the_handler_address() {
    let gate = IdtEntry::interrupt_gate(0x1234_5678_9ABC_DEF0, 0x8);
    assert_eq!(gate.offset_low, 0xDEF0);
    assert_eq!(gate.offset_mid, 0x9ABC);
    assert_eq!(gate.offset_high, 0x1234_5678);
    assert_eq!(gate.selector, 0x8);
    assert_eq!(gate.type_attr, 0x8E);
    assert_eq!(gate.ist, 0);
    assert_eq!(gate.reserved, 0);
}

#[test]
fn x86_64_missing_gate_is_not_present() {
    let gate = IdtEntry::missing();
    assert_eq!(gate.type_attr & 0x80, 0);
    assert_eq!(gate, IdtEntry { offset_low: 0, selector: 0, ist: 0, type_attr: 0, offset_mid: 0, offset_high: 0, reserved: 0 });
}

#[test]
fn x86_64_idt_routes_only_the_syscall_vector() {
    let idt = x86_64::syscall_idt(0xFFFF_8000_0010_2000, 0x10);
    assert_eq!(idt.len(), 0x81);
    assert_eq!(idt[0x80], IdtEntry::interrupt_gate(0xFFFF_8000_0010_2000, 0x10));
    assert_eq!(idt[0], IdtEntry::missing());
    assert_eq!(idt[0x7F], IdtEntry::missing());
}

fn x86_saved_frame() -> [usize; 18] {
    let mut regs = [0usize; 18];
    for (i, r) in regs.iter_mut().enumerate() {
        *r = 0x200 + i;
    }
    regs[7] = 0x0000_0002_0010_0003;
    regs
}

#[test]
fn x86_64_frame_reads_the_abi_registers() {
    let regs = x86_saved_frame();
    let frame = x86_64::trap_entry_frame(&regs);
    assert_eq!(frame.mr(0), 0x205);
    assert_eq!(frame.mr(1), 0x204);
    assert_eq!(frame.mr(2), 0x203);
    assert_eq!(frame.mr(3), 0x202);
    assert_eq!(frame.tag(), MessageTag { label: 2, length: 1, extra_caps: 0, flags: 3 });
    assert_eq!(frame.syscall_number(), 0x200);
    // The whole saved frame, then zeros.
    for i in 0..18 {
        assert_eq!(frame.raw_word(i), regs[i]);
    }
    assert_eq!(frame.raw_word(18), 0);
    assert_eq!(frame.raw_word(31), 0);
}

#[test]
fn x86_64_untouched_frame_leaves_registers() {
    let regs = x86_saved_frame();
    let frame = x86_64::trap_entry_frame(&regs);
    let mut out = [0usize; 18];
    x86_64::trap_write_back(&frame, &mut out);
    assert_eq!(out, regs);
}

#[test]
fn x86_64_context_switch_replaces_the_saved_frame() {
    let regs = x86_saved_frame();
    let mut frame = x86_64::trap_entry_frame(&regs);
    // rip (word 15) and rbx (word 1) of another thread.
    frame.set_raw_word(15, 0xFFFF_8000_0020_0000);
    frame.set_raw_word(1, 77);
    let mut out = regs;
    x86_64::trap_write_back(&frame, &mut out);
    assert_eq!(out[15], 0xFFFF_8000_0020_0000);
    assert_eq!(out[1], 77);
    assert_eq!(out[5], 0x205);
}

#[test]
fn x86_64_reply_lands_in_the_abi_registers() {
    let regs = x86_saved_frame();
    let mut frame = x86_64::trap_entry_frame(&regs);
    frame.set_mr(3, 42);
    frame.set_tag(MessageTag { label: 0, length: 0, extra_caps: 0, flags: 1 });
    let mut out = regs;
    x86_64::trap_write_back(&frame, &mut out);
    assert_eq!(out[2], 42);
    assert_eq!(out[7], 1);
    assert_eq!(out[0], 0x200);
    assert_eq!(out[15], 0x20F);
}
