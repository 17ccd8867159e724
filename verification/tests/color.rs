use psychopath::color::CompressedColor;

#[test]
fn compressed_layout() {
    let c = CompressedColor::XYZ(0x1234_5678_9abc);
    let mut out = vec![0xeeu8; 9];
    assert_eq!(c.write_compressed(&mut out), 7);
    assert_eq!(out, vec![0, 0xbc, 0x9a, 0x78, 0x56, 0x34, 0x12, 0xee, 0xee]);
    assert_eq!(CompressedColor::from_compressed(&out), (c, 7));

    let b = CompressedColor::Blackbody { temperature: 6500, factor: 0x3c00 };
    let mut out = vec![0u8; 5];
    assert_eq!(b.write_compressed(&mut out), 5);
    assert_eq!(out, vec![1, 0x64, 0x19, 0x00, 0x3c]);
    assert_eq!(CompressedColor::from_compressed(&out), (b, 5));

    let t = CompressedColor::Temperature { temperature: 0xffff, factor: 0x0001 };
    let mut out = vec![0u8; 6];
    assert_eq!(t.write_compressed(&mut out), 5);
    assert_eq!(out, vec![2, 0xff, 0xff, 0x01, 0x00, 0]);
    assert_eq!(CompressedColor::from_compressed(&out), (t, 5));
    assert_eq!(t.compressed_size(), 5);
    assert_eq!(c.compressed_size(), 7);
}

#[test]
fn read_gives_back_write() {
    for code in [0u64, 1, 0xff, 0xffff_ffff_ffff, 0x8000_0000_0001] {
        let c = CompressedColor::XYZ(code);
        let mut out = vec![0u8; 7];
        let n = c.write_compressed(&mut out);
        assert_eq!(CompressedColor::from_compressed(&out[..n]), (c, n));
    }
}
