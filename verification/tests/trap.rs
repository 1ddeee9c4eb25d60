use lantern_hal::{MessageTag, TrapFrame, FLAG_ERROR};

#[test]
fn message_tag_roundtrips_through_raw() {
    let tag = MessageTag { label: 0xDEAD_BEEF, length: 0xABC, extra_caps: 0xF, flags: 0x1234 };
    assert_eq!(MessageTag::from_raw(tag.into_raw()), tag);
}

#[test]
fn error_flag_bit_zero() {
    let ok = MessageTag { label: 0, length: 0, extra_caps: 0, flags: 0 };
    let err = MessageTag { label: 0, length: 0, extra_caps: 0, flags: FLAG_ERROR };
    assert!(!ok.is_error());
    assert!(err.is_error());
}

#[test]
fn trap_frame_mr_accessors() {
    let mut frame = TrapFrame::zeroed();
    frame.set_mr(2, 42);
    assert_eq!(frame.mr(2), 42);
    assert_eq!(frame.mr(0), 0);
}

#[test]
fn tag_packs_fields_into_their_bit_ranges() {
    let tag = MessageTag { label: 1, length: 2, extra_caps: 3, flags: 4 };
    assert_eq!(tag.into_raw(), 0x1_0023_0004);
}

#[test]
fn tag_unpacks_fields_from_their_bit_ranges() {
    let tag = MessageTag::from_raw(0xDEAD_BEEF_ABCF_1234);
    assert_eq!(tag, MessageTag { label: 0xDEAD_BEEF, length: 0xABC, extra_caps: 0xF, flags: 0x1234 });
}

#[test]
fn tag_packing_cuts_length_and_extra_caps_to_width() {
    let tag = MessageTag { label: 7, length: 0x1ABC, extra_caps: 0x3F, flags: 9 };
    let back = MessageTag::from_raw(tag.into_raw());
    assert_eq!(back, MessageTag { label: 7, length: 0xABC, extra_caps: 0xF, flags: 9 });
}

#[test]
fn raw_word_roundtrips_through_tag() {
    for raw in [0usize, 1, 0x0123_4567_89AB_CDEF, usize::MAX, 0x8000_0000_0000_0000] {
        assert_eq!(MessageTag::from_raw(raw).into_raw(), raw);
    }
}

#[test]
fn error_flag_ignores_other_flag_bits() {
    let tag = MessageTag { label: 0, length: 0, extra_caps: 0, flags: 0xFFFE };
    assert!(!tag.is_error());
    let tag = MessageTag { label: 0, length: 0, extra_caps: 0, flags: 0x0003 };
    assert!(tag.is_error());
}

#[test]
fn trap_frame_zeroed_is_all_zero() {
    let frame = TrapFrame::zeroed();
    assert_eq!(frame.syscall_number(), 0);
    assert_eq!(frame.tag(), MessageTag { label: 0, length: 0, extra_caps: 0, flags: 0 });
    for i in 0..4 {
        assert_eq!(frame.mr(i), 0);
    }
    for i in 0..32 {
        assert_eq!(frame.raw_word(i), 0);
    }
}

#[test]
fn trap_frame_set_tag_then_tag() {
    let mut frame = TrapFrame::zeroed();
    let tag = MessageTag { label: 0x1234, length: 3, extra_caps: 1, flags: FLAG_ERROR };
    frame.set_tag(tag);
    assert_eq!(frame.tag(), tag);
    assert_eq!(frame.mr(0), 0);
    assert_eq!(frame.syscall_number(), 0);
}

#[test]
fn trap_frame_setters_touch_only_their_field() {
    let mut frame = TrapFrame::zeroed();
    frame.set_syscall_number(17);
    frame.set_raw_word(31, 0x8000_0000);
    frame.set_mr(3, 5);
    assert_eq!(frame.syscall_number(), 17);
    assert_eq!(frame.raw_word(31), 0x8000_0000);
    assert_eq!(frame.raw_word(30), 0);
    assert_eq!(frame.mr(3), 5);
    assert_eq!(frame.mr(2), 0);
    assert_eq!(frame.tag().into_raw(), 0);
}
