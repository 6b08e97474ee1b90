use homebox::barcode::{
    barcode, barcode_container, barcode_item, is_encodable, pack_symbol, render_symbol,
    BarcodeError, Symbol,
};
use homebox::key::Id;

fn counting() -> Id {
    Id::from_bytes([0, 1, 2, 3, 4, 5, 6, 7, 8, 9, 10, 11, 12, 13, 14, 15])
}

/// The modules of a PNG image of one bit per pixel, row by row: dark or not.
fn modules(file: &[u8]) -> (usize, usize, Vec<bool>) {
    let decoder = png::Decoder::new(std::io::Cursor::new(file.to_vec()));
    let mut reader = decoder.read_info().unwrap();
    let mut raw = vec![0u8; reader.output_buffer_size().unwrap()];
    let info = reader.next_frame(&mut raw).unwrap();
    assert_eq!(info.bit_depth, png::BitDepth::One);
    assert_eq!(info.color_type, png::ColorType::Grayscale);
    let width = info.width as usize;
    let height = info.height as usize;
    let row = (width + 7) / 8;
    let mut dark = Vec::new();
    for y in 0..height {
        for x in 0..width {
            let byte = raw[y * row + x / 8];
            dark.push(byte & (1 << (7 - x % 8)) == 0);
        }
    }
    (width, height, dark)
}

#[test]
fn modules_are_packed_most_significant_bit_first() {
    let symbol = Symbol { width: 3, height: 2, dark: vec![(0, 0), (2, 1)] };
    assert_eq!(pack_symbol(&symbol, false), Some(vec![0x7f, 0xdf]));
    assert_eq!(pack_symbol(&symbol, true), Some(vec![0xff, 0xbf, 0xef, 0xff]));
}

#[test]
fn rows_are_padded_to_whole_bytes() {
    let symbol = Symbol { width: 9, height: 1, dark: vec![(8, 0), (8, 0), (0, 0)] };
    assert_eq!(pack_symbol(&symbol, false), Some(vec![0x7f, 0x7f]));
    assert_eq!(pack_symbol(&symbol, true), Some(vec![0xff, 0xff, 0xbf, 0xbf, 0xff, 0xff]));
    let eight = Symbol { width: 8, height: 2, dark: vec![(7, 1)] };
    assert_eq!(pack_symbol(&eight, false), Some(vec![0xff, 0xfe]));
    let six = Symbol { width: 6, height: 1, dark: vec![(5, 0), (4, 0)] };
    assert_eq!(pack_symbol(&six, true), Some(vec![0xff, 0xf9, 0xff]));
}

#[test]
fn symbol_that_cannot_be_drawn_is_refused() {
    let outside = Symbol { width: 3, height: 2, dark: vec![(3, 0)] };
    assert_eq!(pack_symbol(&outside, false), None);
    assert_eq!(pack_symbol(&outside, true), None);
    assert_eq!(render_symbol(&outside, true), Err(BarcodeError::Image));
    let below = Symbol { width: 3, height: 2, dark: vec![(0, 0), (0, 2)] };
    assert_eq!(pack_symbol(&below, false), None);
    let empty = Symbol { width: 0, height: 0, dark: vec![] };
    assert_eq!(pack_symbol(&empty, false), None);
    assert_eq!(render_symbol(&empty, false), Err(BarcodeError::Image));
    assert_eq!(pack_symbol(&empty, true), Some(vec![0xff, 0xff]));
    let huge = Symbol { width: usize::MAX, height: 1, dark: vec![] };
    assert_eq!(pack_symbol(&huge, false), None);
    assert_eq!(pack_symbol(&huge, true), None);
}

#[test]
fn rendered_symbol_is_a_png_of_its_modules() {
    let symbol = Symbol { width: 3, height: 2, dark: vec![(0, 0), (2, 1)] };
    let file = render_symbol(&symbol, true).unwrap();
    assert_eq!(&file[..8], &[137, 80, 78, 71, 13, 10, 26, 10]);
    let (width, height, dark) = modules(&file);
    assert_eq!((width, height), (5, 4));
    let expected: Vec<bool> = (0..20).map(|n| n == 6 || n == 13).collect();
    assert_eq!(dark, expected);
    let (width, height, dark) = modules(&render_symbol(&symbol, false).unwrap());
    assert_eq!((width, height), (3, 2));
    assert_eq!(dark, vec![true, false, false, false, false, true]);
}

#[test]
fn item_barcode_holds_marker_and_identifier() {
    let file = barcode_item(&counting()).unwrap();
    let (width, height, dark) = modules(&file);
    assert_eq!(dark.len(), width * height);
    let payload = datamatrix::DataMatrix::decode(&dark, width).unwrap();
    let mut expected = b"HOMEBOX:I:".to_vec();
    expected.extend_from_slice(&counting().bytes);
    assert_eq!(payload, expected);
}

#[test]
fn container_barcode_has_a_quiet_zone() {
    let file = barcode_container(&counting()).unwrap();
    let (width, height, dark) = modules(&file);
    let mut inner = Vec::new();
    for y in 0..height {
        for x in 0..width {
            let module = dark[y * width + x];
            if x == 0 || y == 0 || x == width - 1 || y == height - 1 {
                assert!(!module);
            } else {
                inner.push(module);
            }
        }
    }
    let payload = datamatrix::DataMatrix::decode(&inner, width - 2).unwrap();
    let mut expected = b"HOMEBOX:C:".to_vec();
    expected.extend_from_slice(&counting().bytes);
    assert_eq!(payload, expected);
}

#[test]
fn barcode_depends_on_the_identifier_alone() {
    let a = barcode_container(&counting()).unwrap();
    let b = barcode_container(&counting()).unwrap();
    assert_eq!(a, b);
    assert_ne!(a, barcode_container(&Id::from_bytes([1; 16])).unwrap());
    assert_ne!(a, barcode_item(&counting()).unwrap());
}

#[test]
fn payload_that_fits_no_symbol_is_refused() {
    let data = vec![0xfau8; 5000];
    assert_eq!(barcode(&data, true), Err(BarcodeError::Symbol));
    assert_eq!(barcode(&data, false), Err(BarcodeError::Symbol));
}

#[test]
fn short_payload_is_drawn_too() {
    let (width, height, dark) = modules(&barcode(b"Foo", false).unwrap());
    assert_eq!(dark.len(), width * height);
    assert_eq!(datamatrix::DataMatrix::decode(&dark, width).unwrap(), b"Foo".to_vec());
    let (wide, high, _) = modules(&barcode(b"Foo", true).unwrap());
    assert_eq!((wide, high), (width + 2, height + 2));
}

#[test]
fn macro_header_without_room_for_a_trailer_is_refused() {
    for kind in [0x35u8, 0x36] {
        let head = [0x5b, 0x29, 0x3e, 0x1e, 0x30, kind, 0x1d];
        assert!(!is_encodable(&head));
        assert_eq!(barcode(&head, true), Err(BarcodeError::Symbol));
        let mut longer = head.to_vec();
        longer.push(b'A');
        assert!(!is_encodable(&longer));
        assert_eq!(barcode(&longer, false), Err(BarcodeError::Symbol));
        longer.push(b'B');
        assert!(is_encodable(&longer));
        assert!(barcode(&longer, false).is_ok());
        assert!(is_encodable(&head[..6]));
        assert!(barcode(&head[..6], false).is_ok());
    }
    assert!(is_encodable(&[]));
    assert!(is_encodable(&[0x5b, 0x29, 0x3e, 0x1e, 0x30, 0x37, 0x1d]));
    assert!(is_encodable(b"HOMEBOX:C:"));
}
