use swiss_archive::rc::{
    check_value, locate, ArchiveContext, ArchivedRc, ArchivedRcWeak, BoundsError, PointerError,
    Shape, SharedPointerError, ValueError, WeakPointerError,
};

fn put_offset(buf: &mut Vec<u8>, pos: usize, offset: i32) {
    let bytes = offset.to_le_bytes();
    for i in 0..4 {
        buf[pos + i] = bytes[i];
    }
}

fn context(extent: usize, kinds: usize) -> ArchiveContext {
    match ArchiveContext::new(extent, kinds) {
        Some(c) => c,
        None => panic!("the claims fit"),
    }
}

fn two_pointers_one_target() -> Vec<u8> {
    let mut buf = vec![0u8; 16];
    buf[0] = 1;
    put_offset(&mut buf, 4, -4);
    put_offset(&mut buf, 8, -8);
    buf
}

#[test]
fn shared_target_is_checked_once() {
    let types = vec![Shape::Leaf(2)];
    let mut buf = two_pointers_one_target();
    let mut ctx = context(buf.len(), 1);
    let first = ArchivedRc { position: 4, type_id: 0 };
    let second = ArchivedRc { position: 8, type_id: 0 };
    assert_eq!(first.check_bytes(&types, &buf, &mut ctx), Ok(()));
    buf[0] = 200;
    assert_eq!(second.check_bytes(&types, &buf, &mut ctx), Ok(()));
    let mut fresh = context(buf.len(), 1);
    assert_eq!(
        second.check_bytes(&types, &buf, &mut fresh),
        Err(SharedPointerError::ValueCheckBytesError(ValueError::Byte { offset: 0, byte: 200 }))
    );
    assert_eq!(second.check_bytes(&types, &buf, &mut fresh), Ok(()));
}

#[test]
fn claims_are_kept_per_type() {
    let types = vec![Shape::Leaf(2), Shape::Leaf(2)];
    let mut buf = two_pointers_one_target();
    let mut ctx = context(buf.len(), 2);
    let first = ArchivedRc { position: 4, type_id: 0 };
    let other_type = ArchivedRc { position: 8, type_id: 1 };
    assert_eq!(first.check_bytes(&types, &buf, &mut ctx), Ok(()));
    buf[0] = 5;
    assert_eq!(
        other_type.check_bytes(&types, &buf, &mut ctx),
        Err(SharedPointerError::ValueCheckBytesError(ValueError::Byte { offset: 0, byte: 5 }))
    );
}

#[test]
fn cycle_of_pointers_ends() {
    let types = vec![Shape::Shared(0)];
    let mut buf = vec![0u8; 16];
    put_offset(&mut buf, 0, 4);
    put_offset(&mut buf, 4, 4);
    put_offset(&mut buf, 8, 4);
    put_offset(&mut buf, 12, -12);
    let mut ctx = context(buf.len(), 1);
    let rc = ArchivedRc { position: 0, type_id: 0 };
    assert_eq!(rc.check_bytes(&types, &buf, &mut ctx), Ok(()));
    for at in [0usize, 4, 8, 12] {
        assert!(ctx.claim(0, at));
    }
    assert!(!ctx.claim(0, 1));
    let mut again = context(buf.len(), 1);
    assert_eq!(check_value(&types, &buf, 0, 8, &mut again), Ok(()));
}

#[test]
fn pointer_to_itself_ends() {
    let types = vec![Shape::Shared(0)];
    let mut buf = vec![0u8; 8];
    put_offset(&mut buf, 0, 0);
    let mut ctx = context(buf.len(), 1);
    let rc = ArchivedRc { position: 0, type_id: 0 };
    assert_eq!(rc.check_bytes(&types, &buf, &mut ctx), Ok(()));
    assert_eq!(rc.check_bytes(&types, &buf, &mut ctx), Ok(()));
}

#[test]
fn cycle_with_a_broken_link_fails() {
    let types = vec![Shape::Shared(0)];
    let mut buf = vec![0u8; 16];
    put_offset(&mut buf, 0, 4);
    put_offset(&mut buf, 4, 4);
    put_offset(&mut buf, 8, 100);
    let mut ctx = context(buf.len(), 1);
    let rc = ArchivedRc { position: 0, type_id: 0 };
    assert_eq!(
        rc.check_bytes(&types, &buf, &mut ctx),
        Err(SharedPointerError::ValueCheckBytesError(ValueError::Pointer(PointerError {
            position: 8,
            offset: 100
        })))
    );
}

#[test]
fn failures_inside_a_target_are_reported() {
    let types = vec![Shape::Shared(1), Shape::Weak(2), Shape::Leaf(2)];
    let mut buf = vec![0u8; 16];
    put_offset(&mut buf, 0, 4);
    buf[4] = 1;
    put_offset(&mut buf, 8, 4);
    buf[12] = 7;
    let rc = ArchivedRc { position: 0, type_id: 1 };
    let mut ctx = context(buf.len(), 3);
    assert_eq!(
        rc.check_bytes(&types, &buf, &mut ctx),
        Err(SharedPointerError::ValueCheckBytesError(ValueError::Byte { offset: 12, byte: 7 }))
    );
    buf[12] = 1;
    let mut ctx = context(buf.len(), 3);
    assert_eq!(rc.check_bytes(&types, &buf, &mut ctx), Ok(()));
    assert_eq!(check_value(&types, &buf, 0, 0, &mut ctx), Ok(()));
    buf[4] = 9;
    let mut ctx = context(buf.len(), 3);
    assert_eq!(
        rc.check_bytes(&types, &buf, &mut ctx),
        Err(SharedPointerError::ValueCheckBytesError(ValueError::Tag { offset: 4, tag: 9 }))
    );
    buf[4] = 1;
    put_offset(&mut buf, 8, 1000);
    let mut ctx = context(buf.len(), 3);
    assert_eq!(
        rc.check_bytes(&types, &buf, &mut ctx),
        Err(SharedPointerError::ValueCheckBytesError(ValueError::Pointer(PointerError {
            position: 8,
            offset: 1000
        })))
    );
    buf[4] = 0;
    let mut ctx = context(buf.len(), 3);
    assert_eq!(rc.check_bytes(&types, &buf, &mut ctx), Ok(()));
    let mut ctx = context(buf.len(), 3);
    assert_eq!(
        check_value(&types, &buf, 2, 16, &mut ctx),
        Err(ValueError::Bounds(BoundsError { offset: 16, len: 1 }))
    );
    buf[12] = 1;
    let mut ctx = context(buf.len(), 3);
    assert_eq!(
        check_value(&types, &buf, 1, 12, &mut ctx),
        Err(ValueError::Bounds(BoundsError { offset: 16, len: 4 }))
    );
}

#[test]
fn shared_pointer_errors() {
    let types = vec![Shape::Leaf(2)];
    let mut buf = two_pointers_one_target();
    put_offset(&mut buf, 8, 8);
    let mut ctx = context(buf.len(), 1);
    let rc = ArchivedRc { position: 8, type_id: 0 };
    assert_eq!(
        rc.check_bytes(&types, &buf, &mut ctx),
        Err(SharedPointerError::PointerCheckBytesError(PointerError { position: 8, offset: 8 }))
    );
    put_offset(&mut buf, 8, -9);
    assert_eq!(
        rc.check_bytes(&types, &buf, &mut ctx),
        Err(SharedPointerError::PointerCheckBytesError(PointerError { position: 8, offset: -9 }))
    );
    put_offset(&mut buf, 8, 7);
    assert_eq!(rc.check_bytes(&types, &buf, &mut ctx), Ok(()));
    let late = ArchivedRc { position: 13, type_id: 0 };
    assert_eq!(
        late.check_bytes(&types, &buf, &mut ctx),
        Err(SharedPointerError::ContextError(BoundsError { offset: 13, len: 4 }))
    );
    let mut narrow = context(10, 1);
    assert_eq!(
        rc.check_bytes(&types, &buf, &mut narrow),
        Err(SharedPointerError::ContextError(BoundsError { offset: 8, len: 4 }))
    );
}

#[test]
fn locate_reads_little_endian() {
    let mut buf = vec![0u8; 600];
    buf[10] = 0x2c;
    buf[11] = 0x01;
    assert_eq!(locate(&buf, 10, 600), Ok(310));
    put_offset(&mut buf, 300, -300);
    assert_eq!(locate(&buf, 300, 600), Ok(0));
    put_offset(&mut buf, 300, -301);
    assert_eq!(
        locate(&buf, 300, 600),
        Err(SharedPointerError::PointerCheckBytesError(PointerError {
            position: 300,
            offset: -301
        }))
    );
    put_offset(&mut buf, 300, 299);
    assert_eq!(locate(&buf, 300, 600), Ok(599));
    put_offset(&mut buf, 300, 300);
    assert_eq!(
        locate(&buf, 300, 600),
        Err(SharedPointerError::PointerCheckBytesError(PointerError {
            position: 300,
            offset: 300
        }))
    );
    assert_eq!(
        locate(&buf, 597, 600),
        Err(SharedPointerError::ContextError(BoundsError { offset: 597, len: 4 }))
    );
}

#[test]
fn weak_tag_must_be_none_or_some() {
    let types = vec![Shape::Leaf(2)];
    let mut buf = vec![0u8; 16];
    buf[0] = 1;
    buf[4] = 0x7f;
    put_offset(&mut buf, 8, -8);
    let mut ctx = context(buf.len(), 1);
    let weak = ArchivedRcWeak { position: 4, type_id: 0 };
    assert_eq!(weak.check_bytes(&types, &buf, &mut ctx), Err(WeakPointerError::InvalidTag(0x7f)));
    buf[4] = 2;
    assert_eq!(weak.check_bytes(&types, &buf, &mut ctx), Err(WeakPointerError::InvalidTag(2)));
    buf[4] = 0xff;
    assert_eq!(weak.check_bytes(&types, &buf, &mut ctx), Err(WeakPointerError::InvalidTag(0xff)));
    assert!(!ctx.claim(0, 0));
}

#[test]
fn weak_none_and_some() {
    let types = vec![Shape::Leaf(2)];
    let mut buf = vec![0u8; 16];
    buf[0] = 1;
    buf[4] = 0;
    put_offset(&mut buf, 8, 1000);
    let mut ctx = context(buf.len(), 1);
    let weak = ArchivedRcWeak { position: 4, type_id: 0 };
    assert_eq!(weak.check_bytes(&types, &buf, &mut ctx), Ok(()));
    buf[4] = 1;
    assert_eq!(
        weak.check_bytes(&types, &buf, &mut ctx),
        Err(WeakPointerError::CheckBytes(SharedPointerError::PointerCheckBytesError(
            PointerError { position: 8, offset: 1000 }
        )))
    );
    put_offset(&mut buf, 8, -8);
    assert_eq!(weak.check_bytes(&types, &buf, &mut ctx), Ok(()));
    buf[0] = 9;
    assert_eq!(weak.check_bytes(&types, &buf, &mut ctx), Ok(()));
    let mut fresh = context(buf.len(), 1);
    assert_eq!(
        weak.check_bytes(&types, &buf, &mut fresh),
        Err(WeakPointerError::CheckBytes(SharedPointerError::ValueCheckBytesError(
            ValueError::Byte { offset: 0, byte: 9 }
        )))
    );
    let outside = ArchivedRcWeak { position: 16, type_id: 0 };
    assert_eq!(
        outside.check_bytes(&types, &buf, &mut fresh),
        Err(WeakPointerError::CheckBytes(SharedPointerError::ContextError(BoundsError {
            offset: 16,
            len: 1
        })))
    );
}

#[test]
fn weak_payload_lies_at_the_next_multiple_of_four() {
    let types = vec![Shape::Leaf(2)];
    let mut buf = vec![0u8; 16];
    buf[0] = 1;
    buf[5] = 1;
    put_offset(&mut buf, 8, -8);
    let mut ctx = context(buf.len(), 1);
    let unaligned = ArchivedRcWeak { position: 5, type_id: 0 };
    assert_eq!(unaligned.check_bytes(&types, &buf, &mut ctx), Ok(()));
    assert!(ctx.claim(0, 0));
    buf[12] = 1;
    let last = ArchivedRcWeak { position: 12, type_id: 0 };
    assert_eq!(
        last.check_bytes(&types, &buf, &mut ctx),
        Err(WeakPointerError::CheckBytes(SharedPointerError::ContextError(BoundsError {
            offset: 16,
            len: 4
        })))
    );
    buf[12] = 0;
    assert_eq!(last.check_bytes(&types, &buf, &mut ctx), Ok(()));
}

#[test]
fn context_claims_and_bounds() {
    let mut ctx = context(10, 3);
    assert!(ctx.in_bounds(0, 10));
    assert!(ctx.in_bounds(10, 0));
    assert!(!ctx.in_bounds(7, 4));
    assert!(!ctx.in_bounds(11, 0));
    assert!(!ctx.in_bounds(usize::MAX, 2));
    assert!(!ctx.claim(1, 4));
    assert!(ctx.claim(1, 4));
    assert!(!ctx.claim(2, 4));
    assert!(!ctx.claim(1, 5));
    assert!(ctx.claim(2, 4));
    assert!(!ctx.claim(0, 9));
    assert!(ArchiveContext::new(usize::MAX, 2).is_none());
    assert!(ArchiveContext::new(0, usize::MAX).is_some());
}

#[test]
fn weak_hands_on_what_the_shared_check_says() {
    let types = vec![Shape::Leaf(2)];
    for buf in [vec![1u8], vec![1u8, 0, 0, 0, 0, 0], vec![1u8, 0, 0, 0, 100, 0, 0, 0, 7]] {
        let weak = ArchivedRcWeak { position: 0, type_id: 0 };
        let strong = ArchivedRc { position: 4, type_id: 0 };
        let mut one = context(buf.len(), 1);
        let mut two = context(buf.len(), 1);
        let inner = strong.check_bytes(&types, &buf, &mut one);
        let outer = weak.check_bytes(&types, &buf, &mut two);
        match inner {
            Ok(()) => assert_eq!(outer, Ok(())),
            Err(e) => assert_eq!(outer, Err(WeakPointerError::CheckBytes(e))),
        }
    }
    let buf = vec![1u8];
    let mut ctx = context(1, 1);
    assert_eq!(
        ArchivedRcWeak { position: 0, type_id: 0 }.check_bytes(&types, &buf, &mut ctx),
        Err(WeakPointerError::CheckBytes(SharedPointerError::ContextError(BoundsError {
            offset: 4,
            len: 4
        })))
    );
}
