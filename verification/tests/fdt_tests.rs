use openion::fdt::{read_be32_slice, read_be64_slice, walk_nodes};

fn push32(v: &mut Vec<u8>, x: u32) {
    v.extend_from_slice(&x.to_be_bytes());
}

fn push_str_padded(v: &mut Vec<u8>, s: &[u8]) {
    v.extend_from_slice(s);
    v.push(0);
    while v.len() % 4 != 0 {
        v.push(0);
    }
}

/// A small device tree: a root with one `uart@1000` node.
fn sample_dtb() -> Vec<u8> {
    let mut strings: Vec<u8> = Vec::new();
    let off_compat = strings.len() as u32;
    strings.extend_from_slice(b"compatible\0");
    let off_reg = strings.len() as u32;
    strings.extend_from_slice(b"reg\0");
    let off_irq = strings.len() as u32;
    strings.extend_from_slice(b"interrupts\0");

    let mut st: Vec<u8> = Vec::new();
    push32(&mut st, 1);
    push_str_padded(&mut st, b"");
    push32(&mut st, 1);
    push_str_padded(&mut st, b"uart@1000");
    let compat = b"ns16550a\0generic-uart\0";
    push32(&mut st, 3);
    push32(&mut st, compat.len() as u32);
    push32(&mut st, off_compat);
    st.extend_from_slice(compat);
    while st.len() % 4 != 0 {
        st.push(0);
    }
    push32(&mut st, 3);
    push32(&mut st, 8);
    push32(&mut st, off_reg);
    push32(&mut st, 0x1000);
    push32(&mut st, 0x100);
    push32(&mut st, 3);
    push32(&mut st, 4);
    push32(&mut st, off_irq);
    push32(&mut st, 10);
    push32(&mut st, 2);
    push32(&mut st, 2);
    push32(&mut st, 9);

    let off_struct = 40u32;
    let off_strings = off_struct + st.len() as u32;
    let total = off_strings + strings.len() as u32;
    let mut d: Vec<u8> = Vec::new();
    push32(&mut d, 0xd00d_feed);
    push32(&mut d, total);
    push32(&mut d, off_struct);
    push32(&mut d, off_strings);
    while d.len() < off_struct as usize {
        d.push(0);
    }
    d.extend_from_slice(&st);
    d.extend_from_slice(&strings);
    d
}

#[test]
fn be_reads() {
    assert_eq!(read_be32_slice(&[0x12, 0x34, 0x56, 0x78]), 0x1234_5678);
    assert_eq!(read_be64_slice(&[0, 0, 0, 1, 0, 0, 0, 2]), 0x1_0000_0002);
}

#[test]
fn walk_finds_uart_then_root() {
    let d = sample_dtb();
    let nodes = walk_nodes(&d);
    assert_eq!(nodes.len(), 2);
    assert_eq!(nodes[0].name(), b"uart@1000");
    assert_eq!(nodes[1].name(), b"");
    let uart = &nodes[0];
    assert_eq!(uart.first_compatible(), Some("ns16550a"));
    assert!(uart.compatible_matches("generic-uart"));
    assert!(!uart.compatible_matches("virtio,mmio"));
    let reg = uart.first_reg().unwrap();
    assert_eq!(reg.base, 0x1000);
    assert_eq!(reg.size, 0x100);
    assert_eq!(uart.interrupt(), Some(10));
    assert_eq!(uart.interrupt_or_zero(), 10);
    assert_eq!(nodes[1].interrupt_or_zero(), 0);
    assert_eq!(nodes[1].first_reg(), None);
}

#[test]
fn walk_rejects_bad_magic() {
    let mut d = sample_dtb();
    d[0] = 0;
    assert_eq!(walk_nodes(&d).len(), 0);
    assert_eq!(walk_nodes(&[1, 2, 3]).len(), 0);
}

#[test]
fn first_compatible_that_is_not_text_is_none() {
    let mut d = sample_dtb();
    let at = d.windows(8).position(|w| w == b"ns16550a").unwrap();
    d[at] = 0xff;
    let nodes = walk_nodes(&d);
    assert_eq!(nodes[0].first_compatible(), None);
    // the other strings still match
    assert!(nodes[0].compatible_matches("generic-uart"));
}

#[test]
fn parse_lists_device_nodes() {
    let d = sample_dtb();
    let devs = openion::fdt::parse(&d);
    assert_eq!(devs.len(), 1);
    assert_eq!(devs[0].name, b"uart@1000");
    assert_eq!(devs[0].compatible, "ns16550a");
    assert_eq!(devs[0].reg, &[0, 0, 0x10, 0, 0, 0, 1, 0][..]);
    assert_eq!(devs[0].irq, 10);
}
