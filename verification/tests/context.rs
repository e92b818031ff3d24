use rcore_thread::{
    new_vec_default, Context, Registers, RegistersCR3, RegistersSatp, Stack, STACK_SIZE,
};

#[test]
fn fresh_context_records_entry_argument_and_stack_top() {
    let c = Context::new(0xAB00, 3, 0x8000);
    assert_eq!(c.entry, 0xAB00);
    assert_eq!(c.arg0, 3);
    assert_eq!(c.stack_top, 0x8000);
}

#[test]
fn uninit_context_is_zeroed() {
    let c = Context::uninit();
    assert_eq!(c, Context { entry: 0, arg0: 0, stack_top: 0 });
}

#[test]
fn initial_x86_64_frame_resumes_at_entry_with_the_argument() {
    let r = Registers::new(0x4000, 17);
    assert_eq!(r.rip, 0x4000);
    assert_eq!(r.rbx, 17);
    assert_eq!(r.r15, 0);
    assert_eq!(r.r14, 0);
    assert_eq!(r.r13, 0);
    assert_eq!(r.r12, 0);
    assert_eq!(r.rbp, 0);
}

#[test]
fn initial_frame_with_page_table_root_keeps_it() {
    let r = RegistersCR3::new(0x4000, 17, 0x99000);
    assert_eq!(r.rip, 0x4000);
    assert_eq!(r.rbx, 17);
    assert_eq!(r.cr3, 0x99000);
    assert_eq!(r.rbp, 0);
}

#[test]
fn initial_riscv_frame_carries_argument_in_first_saved_register() {
    let r = RegistersSatp::new(0x4000, 17, 0x55);
    assert_eq!(r.ra, 0x4000);
    assert_eq!(r.satp, 0x55);
    assert_eq!(r.s[0], 17);
    for i in 1..12 {
        assert_eq!(r.s[i], 0);
    }
}

#[test]
fn stack_top_is_one_past_the_region() {
    let s = Stack::new(4 * STACK_SIZE);
    assert_eq!(s.top(), 5 * STACK_SIZE);
}

#[test]
fn default_vector_has_the_requested_length() {
    let v: Vec<usize> = new_vec_default(5);
    assert_eq!(v, vec![0, 0, 0, 0, 0]);
    let w: Vec<Option<u8>> = new_vec_default(3);
    assert_eq!(w, vec![None, None, None]);
}
