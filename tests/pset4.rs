use psets::recover::{is_jpeg, BlockAction, Recovery};

#[test]
fn test_is_jpeg() {
    let buffer = [0xff, 0xd8, 0xff, 0xe9];
    assert!(is_jpeg(&buffer));
    let bugger = [0xff, 0xd8, 0xff, 0x00];
    assert!(!is_jpeg(&bugger));
}

#[test]
fn jpeg_signature_edges() {
    assert!(is_jpeg(&[0xff, 0xd8, 0xff, 0xe0, 0x00]));
    assert!(is_jpeg(&[0xff, 0xd8, 0xff, 0xef]));
    assert!(!is_jpeg(&[0xff, 0xd8, 0xfe, 0xe0]));
    assert!(!is_jpeg(&[0xd8, 0xff, 0xff, 0xe0]));
}

#[test]
fn recovery_starts_and_continues_images() {
    let mut r = Recovery::new();
    let plain = [0u8, 1, 2, 3];
    let start = [0xff, 0xd8, 0xff, 0xe1];
    assert_eq!(r.step(&plain), BlockAction::Skip);
    assert_eq!(r.step(&start), BlockAction::StartFile(0));
    assert_eq!(r.step(&plain), BlockAction::Append);
    assert_eq!(r.step(&start), BlockAction::StartFile(1));
    assert_eq!(r.started, 2);
}
