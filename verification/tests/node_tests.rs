use kernel_memory::interrupts::{InterruptID, PIC1_OFFSET, PIC2_OFFSET};
use kernel_memory::math::{Point, Vector};
use kernel_memory::memory::{LinkedListNode, FREE_MARKER, PAGE_SIZE};
use kernel_memory::screen::Screen;

#[test]
fn new_node_describes_one_page() {
    let n = LinkedListNode::new(Some(0x5000));
    assert_eq!(n.magic, FREE_MARKER);
    assert_eq!(n.size, PAGE_SIZE);
    assert_eq!(n.next, Some(0x5000));
    assert!(n.verify());
}

#[test]
fn new_size_rounds_down_to_pages() {
    let n = LinkedListNode::new_size(None, 0x2FFF);
    assert_eq!(n.size, 0x2000);
    let exact = LinkedListNode::new_size(None, 0x3000);
    assert_eq!(exact.size, 0x3000);
}

#[test]
fn next_pointer_updates() {
    let mut n = LinkedListNode::new(None);
    n.set_next(0x9000);
    assert_eq!(n.next, Some(0x9000));
    n.clear_next();
    assert_eq!(n.next, None);
}

#[test]
fn verify_rejects_a_clobbered_sentinel() {
    let mut n = LinkedListNode::new(None);
    n.magic = 0;
    assert!(!n.verify());
}

#[test]
fn point_and_vector_basics() {
    assert_eq!(Point::zero(), Point(0, 0));
    let v = Vector(3, 4);
    assert_eq!(v.0, 3);
    assert_eq!(v.1, 4);
}

#[test]
fn screen_locates_pixels() {
    // Scanline stride of 2560 bytes, four bytes per pixel: the pixel
    // at column 2, row 3 sits 3 * 2560 + 2 * 4 bytes into the buffer.
    let s = Screen::new(640, 480, 2560, 0x10000);
    assert_eq!(s.w, 640);
    assert_eq!(s.h, 480);
    assert_eq!(s.pixel_location(Point(2, 3)), 0x10000 + 3 * 2560 + 8);
}

#[test]
fn interrupt_vectors_follow_the_remap_offset() {
    assert_eq!(PIC1_OFFSET, 32);
    assert_eq!(PIC2_OFFSET, 40);
    assert_eq!(InterruptID::Timer.vector(), 32);
    assert_eq!(InterruptID::Keyboard.vector(), 33);
}
