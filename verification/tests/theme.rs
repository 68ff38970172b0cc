use minesweeper::theme::hex_rgb;

#[test]
fn hex_text_reads_as_bytes() {
    assert_eq!(hex_rgb("1E1E2E"), (0x1e, 0x1e, 0x2e));
    assert_eq!(hex_rgb("#ff007c"), (0xff, 0x00, 0x7c));
    assert_eq!(hex_rgb("##A6E3A1"), (0xa6, 0xe3, 0xa1));
    assert_eq!(hex_rgb("000000"), (0, 0, 0));
    assert_eq!(hex_rgb("FFFFFFxyz"), (255, 255, 255));
}
