use paging::page::{is_canonical, PAGE_SIZE};
use paging::{Frame, Page};

#[test]
fn page_holds_its_address() {
    for address in [0u64, 1, 4095, 4096, 0x7fff_ffff_ffff, 0xffff_8000_0000_0000, u64::MAX] {
        assert!(is_canonical(address));
        let page = Page::containing_address(address);
        assert!(page.start_address() <= address);
        assert!(address - page.start_address() < PAGE_SIZE);
    }
}

#[test]
fn addresses_in_the_gap_are_refused() {
    assert!(!is_canonical(0x1_0000_0000_0000));
    assert!(!is_canonical(0x0000_8000_0000_0000));
    assert!(!is_canonical(0xffff_7fff_ffff_ffff));
    assert!(is_canonical(0x0000_7fff_ffff_ffff));
    assert!(is_canonical(0xffff_8000_0000_0000));
}

#[test]
fn indices_of_a_page() {
    let page = Page::containing_address(42 * 512 * 512 * 4096);
    assert_eq!(page.p4_index(), 0);
    assert_eq!(page.p3_index(), 42);
    assert_eq!(page.p2_index(), 0);
    assert_eq!(page.p1_index(), 0);
    let page = Page::containing_address(0xffff_ffff_ffff_f000);
    assert_eq!(page.p4_index(), 511);
    assert_eq!(page.p3_index(), 511);
    assert_eq!(page.p2_index(), 511);
    assert_eq!(page.p1_index(), 511);
    let page = Page { number: 0o123_456_701_234 };
    assert_eq!(page.p4_index(), 0o123);
    assert_eq!(page.p3_index(), 0o456);
    assert_eq!(page.p2_index(), 0o701);
    assert_eq!(page.p1_index(), 0o234);
}

#[test]
fn page_range_is_inclusive() {
    let mut pages = Page::range_inclusive(Page { number: 3 }, Page { number: 5 });
    assert_eq!(pages.next(), Some(Page { number: 3 }));
    assert_eq!(pages.next(), Some(Page { number: 4 }));
    assert_eq!(pages.next(), Some(Page { number: 5 }));
    assert_eq!(pages.next(), None);
    assert_eq!(pages.next(), None);
    let mut none = Page::range_inclusive(Page { number: 6 }, Page { number: 5 });
    assert_eq!(none.next(), None);
}

#[test]
fn frame_range_is_inclusive() {
    let mut frames = Frame::range_inclusive(
        Frame::containing_address(0x1000),
        Frame::containing_address(0x2fff),
    );
    assert_eq!(frames.next(), Some(Frame { number: 1 }));
    assert_eq!(frames.next(), Some(Frame { number: 2 }));
    assert_eq!(frames.next(), None);
    assert_eq!(Frame { number: 7 }.start_address(), 0x7000);
}
