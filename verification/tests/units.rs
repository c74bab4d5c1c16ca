use tisuos::codec::{parse_record, DirRecord, FATLongDirItem, FATShortDirItem};
use tisuos::codec::{encode_long_item, encode_short_item};
use tisuos::graphic::Pixel;
use tisuos::name::{check_sum, make_shortname, split_long_name, widen_name};
use tisuos::trap::{Environment, Register};

fn name_of(s: &str) -> Vec<u16> {
    s.encode_utf16().collect()
}

#[test]
fn checksum_stable_across_repeated_computation() {
    let n = make_shortname(&name_of("hello.txt"));
    let a = check_sum(&n);
    let b = check_sum(&n);
    let c = check_sum(&n);
    assert_eq!(a, b);
    assert_eq!(b, c);
}

#[test]
fn checksum_exact_values() {
    // one step: rotate 0 right (still 0), add 1
    assert_eq!(check_sum(&vec![1u8]), 1);
    // second step: rotate 1 right (0x80), add 0
    assert_eq!(check_sum(&vec![1u8, 0u8]), 0x80);
    // all-zero name stays zero
    assert_eq!(check_sum(&vec![0u8; 11]), 0);
}

#[test]
fn checksum_differs_for_differing_names() {
    let a = check_sum(&make_shortname(&name_of("alpha.txt")));
    let b = check_sum(&make_shortname(&name_of("beta.txt")));
    assert_ne!(a, b);
}

#[test]
fn shortname_uppercases_truncates_and_pads() {
    assert_eq!(make_shortname(&name_of("hello.txt")), b"HELLO   TXT".to_vec());
    assert_eq!(make_shortname(&name_of("longfilenametest")), b"LONGFILE   ".to_vec());
    assert_eq!(make_shortname(&name_of("a.b")), b"A       B  ".to_vec());
    assert_eq!(make_shortname(&name_of("archive.tar.gz")), b"ARCHIVE.GZ ".to_vec());
}

#[test]
fn split_long_name_emits_tail_fragment_first() {
    let frs = split_long_name(&name_of("longfilenametest"));
    assert_eq!(frs.len(), 2);
    assert_eq!(frs[0], name_of("est"));
    assert_eq!(frs[1], name_of("longfilenamet"));
    let one = split_long_name(&name_of("abc"));
    assert_eq!(one.len(), 1);
    assert_eq!(one[0], name_of("abc"));
    let exact = split_long_name(&name_of("abcdefghijklm"));
    assert_eq!(exact.len(), 1);
    assert_eq!(exact[0], name_of("abcdefghijklm"));
}

#[test]
fn long_record_roundtrip_through_bytes() {
    let item = FATLongDirItem::new(name_of("est"), 2, 0xA7, true);
    let bytes = encode_long_item(&item);
    assert_eq!(bytes.len(), 32);
    assert_eq!(bytes[0], 0x42);
    assert_eq!(bytes[11], 0x0F);
    assert_eq!(bytes[13], 0xA7);
    match parse_record(&bytes) {
        DirRecord::Long(l) => {
            assert_eq!(l.fragment, name_of("est"));
            assert_eq!(l.seq_no, 2);
            assert_eq!(l.checksum, 0xA7);
            assert!(l.last);
        },
        _ => panic!("expected a long record"),
    }
}

#[test]
fn short_record_roundtrip_through_bytes() {
    let item = FATShortDirItem::new(b"HELLO   TXT".to_vec(), 0x20, 0x00ABCDEF, 1234);
    let bytes = encode_short_item(&item);
    assert_eq!(bytes.len(), 32);
    assert_eq!(bytes[11], 0x20);
    match parse_record(&bytes) {
        DirRecord::Short(s) => {
            assert_eq!(s.name, b"HELLO   TXT".to_vec());
            assert_eq!(s.attr, 0x20);
            assert_eq!(s.start_cluster, 0x00ABCDEF);
            assert_eq!(s.size, 1234);
        },
        _ => panic!("expected a short record"),
    }
}

#[test]
fn zeroed_slot_parses_as_free() {
    let bytes = vec![0u8; 32];
    assert!(matches!(parse_record(&bytes), DirRecord::Free));
    let mut deleted = vec![0u8; 32];
    deleted[0] = 0xE5;
    deleted[11] = 0x20;
    assert!(matches!(parse_record(&deleted), DirRecord::Free));
}

#[test]
fn widen_name_widens_each_byte() {
    assert_eq!(widen_name(&b"AB.".to_vec()), vec![0x41u16, 0x42, 0x2E]);
}

#[test]
fn pixel_constructors() {
    let r = Pixel::red();
    assert_eq!((r.r, r.g, r.b, r.a), (255, 0, 0, 255));
    let g = Pixel::green();
    assert_eq!((g.r, g.g, g.b, g.a), (0, 255, 0, 255));
    let b = Pixel::blue();
    assert_eq!((b.r, b.g, b.b, b.a), (0, 0, 255, 255));
    let y = Pixel::yellow();
    assert_eq!((y.r, y.g, y.b, y.a), (255, 255, 0, 255));
    let gr = Pixel::grey();
    assert_eq!((gr.r, gr.g, gr.b, gr.a), (55, 55, 55, 255));
    let w = Pixel::white();
    assert_eq!((w.r, w.g, w.b, w.a), (255, 255, 255, 255));
    let bl = Pixel::black();
    assert_eq!((bl.r, bl.g, bl.b, bl.a), (0, 0, 0, 255));
    let s = Pixel::shallow_grey();
    assert_eq!((s.r, s.g, s.b, s.a), (122, 122, 122, 255));
}

#[test]
fn register_indices() {
    assert_eq!(Register::RA.val(), 1);
    assert_eq!(Register::SP.val(), 2);
    assert_eq!(Register::A0.val(), 10);
    assert_eq!(Register::A1.val(), 11);
    assert_eq!(Register::A2.val(), 12);
    assert_eq!(Register::A3.val(), 13);
}

#[test]
fn environment_new_and_copy() {
    let mut a = Environment::new();
    assert_eq!(a.regs, [0usize; 32]);
    assert_eq!(a.satp, 0);
    assert_eq!(a.epc, 0);
    assert_eq!(a.hartid, 0);
    a.hartid = 3;
    let mut b = Environment::new();
    b.regs[10] = 77;
    b.satp = 42;
    b.epc = 0x8000_0000;
    b.hartid = 1;
    a.copy(&b);
    assert_eq!(a.regs[10], 77);
    assert_eq!(a.satp, 42);
    assert_eq!(a.epc, 0x8000_0000);
    // copying a context keeps which core it belongs to
    assert_eq!(a.hartid, 3);
}
