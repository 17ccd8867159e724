use psychopath::color::CompressedColor;
use psychopath::shading::CompressedClosure;

#[test]
fn closure_layout_ggx() {
    let c = CompressedClosure::GGX {
        color: CompressedColor::Blackbody { temperature: 6500, factor: 0x3c00 },
        roughness: 0x1234,
        fresnel: 0xffff,
    };
    assert_eq!(c.compressed_size(), 10);
    let mut out = vec![0xaau8; 12];
    assert_eq!(c.write_compressed(&mut out), 10);
    assert_eq!(out, vec![1, 0x34, 0x12, 0xff, 0xff, 1, 0x64, 0x19, 0x00, 0x3c, 0xaa, 0xaa]);
    assert_eq!(CompressedClosure::from_compressed(&out), (c, 10));
}

#[test]
fn closure_layout_lambert_and_emit() {
    let l = CompressedClosure::Lambert(CompressedColor::XYZ(0x0102_0304_0506));
    assert_eq!(l.compressed_size(), 8);
    let mut out = vec![0u8; 8];
    assert_eq!(l.write_compressed(&mut out), 8);
    assert_eq!(out, vec![0, 0, 6, 5, 4, 3, 2, 1]);
    assert_eq!(CompressedClosure::from_compressed(&out), (l, 8));

    let e = CompressedClosure::Emit(CompressedColor::Temperature { temperature: 1, factor: 2 });
    assert_eq!(e.compressed_size(), 6);
    let mut out = vec![0u8; 6];
    assert_eq!(e.write_compressed(&mut out), 6);
    assert_eq!(out, vec![2, 2, 1, 0, 2, 0]);
    assert_eq!(CompressedClosure::from_compressed(&out), (e, 6));
}

#[test]
fn closure_read_gives_back_write() {
    let colors = [
        CompressedColor::XYZ(0),
        CompressedColor::XYZ(0xffff_ffff_ffff),
        CompressedColor::Blackbody { temperature: 0, factor: 0xffff },
        CompressedColor::Temperature { temperature: 0x8001, factor: 7 },
    ];
    for color in colors {
        for c in [
            CompressedClosure::Lambert(color),
            CompressedClosure::GGX { color, roughness: 0x00ff, fresnel: 0xff00 },
            CompressedClosure::Emit(color),
        ] {
            let mut out = vec![0u8; 16];
            let n = c.write_compressed(&mut out);
            assert_eq!(n, c.compressed_size());
            assert_eq!(CompressedClosure::from_compressed(&out[..n]), (c, n));
        }
    }
}
