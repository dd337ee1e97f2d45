use image::{DynamicImage, ImageOutputFormat, Rgba, RgbaImage};
use sfa::writer::{encode_source, push_decimal};
use sfa::{decode_from_bytes, encode, encode_payloads, latest_payloads, parse, Error, ErrorKind};
use std::io::Cursor;

fn pixel_png(r: u8, g: u8, b: u8) -> Vec<u8> {
    let img = DynamicImage::ImageRgba8(RgbaImage::from_pixel(1, 1, Rgba([r, g, b, 255])));
    let mut out = Vec::new();
    img.write_to(&mut Cursor::new(&mut out), ImageOutputFormat::Png).unwrap();
    out
}

fn reencoded(source: &[u8]) -> Vec<u8> {
    let img = image::load_from_memory(source).unwrap();
    let mut out = Vec::new();
    img.write_to(&mut Cursor::new(&mut out), ImageOutputFormat::Png).unwrap();
    out
}

fn frame(name: &[u8], payload: &[u8]) -> Vec<u8> {
    let mut v = name.to_vec();
    v.push(b':');
    v.extend_from_slice(payload.len().to_string().as_bytes());
    v.push(b':');
    v.extend_from_slice(payload);
    v
}

fn entry(name: &[u8], payload: &[u8]) -> (Vec<u8>, Vec<u8>) {
    (name.to_vec(), payload.to_vec())
}

#[test]
fn two_pixels_scenario() {
    let a = pixel_png(255, 0, 0);
    let b = pixel_png(0, 0, 255);
    let out = encode(&vec![entry(b"a", &a), entry(b"b", &b)]).unwrap();
    let pa = reencoded(&a);
    let pb = reencoded(&b);
    let mut expected = b"SFA;".to_vec();
    expected.extend(frame(b"a", &pa));
    expected.extend(frame(b"b", &pb));
    assert_eq!(out, expected);

    let decoded = decode_from_bytes(&out).unwrap();
    assert_eq!(decoded.len(), 2);
    let ia = image::load_from_memory_with_format(&pa, image::ImageFormat::Png).unwrap();
    let ib = image::load_from_memory_with_format(&pb, image::ImageFormat::Png).unwrap();
    for (name, d) in decoded {
        if name == b"a".to_vec() {
            assert!(d.image == ia);
        } else {
            assert_eq!(name, b"b".to_vec());
            assert!(d.image == ib);
        }
    }
}

#[test]
fn round_trip_of_payloads() {
    let entries = vec![entry(b"one", b"x:y:z"), entry(b"two", b""), entry(b"three", &[0, 58, 255])];
    let bytes = encode_payloads(&entries).unwrap();
    assert_eq!(parse(&bytes).unwrap(), entries);
}

#[test]
fn round_trip_of_images() {
    let a = pixel_png(1, 2, 3);
    let out = encode(&vec![entry(b"sprite.png", &a)]).unwrap();
    let decoded = decode_from_bytes(&out).unwrap();
    assert_eq!(decoded.len(), 1);
    assert_eq!(decoded[0].0, b"sprite.png".to_vec());
    let pixel = decoded[0].1.image.to_rgba8().get_pixel(0, 0).0;
    assert_eq!(pixel, [1, 2, 3, 255]);
}

#[test]
fn magic_too_short() {
    assert_eq!(parse(&b"".to_vec()), Err(ErrorKind::TruncatedMagic));
    assert_eq!(parse(&b"SFA".to_vec()), Err(ErrorKind::TruncatedMagic));
    assert_eq!(decode_from_bytes(&b"SF".to_vec()).err(), Some(ErrorKind::TruncatedMagic));
}

#[test]
fn magic_wrong() {
    assert_eq!(parse(&b"SFB;".to_vec()), Err(ErrorKind::InvalidMagic));
    assert_eq!(parse(&b"XSFA;a:1:x".to_vec()), Err(ErrorKind::InvalidMagic));
    assert_eq!(decode_from_bytes(&b"sfa;".to_vec()).err(), Some(ErrorKind::InvalidMagic));
}

#[test]
fn truncated_last_payload() {
    let bytes = encode_payloads(&vec![entry(b"a", b"xy"), entry(b"b", b"hello")]).unwrap();
    for k in 1..5 {
        let cut = bytes[..bytes.len() - k].to_vec();
        assert_eq!(parse(&cut), Err(ErrorKind::TruncatedPayload));
    }
}

#[test]
fn declared_length_too_large() {
    assert_eq!(parse(&b"SFA;a:10:abc".to_vec()), Err(ErrorKind::TruncatedPayload));
    assert_eq!(decode_from_bytes(&b"SFA;a:4:abc".to_vec()).err(), Some(ErrorKind::TruncatedPayload));
}

#[test]
fn zero_length_payload() {
    assert_eq!(parse(&b"SFA;a:0:".to_vec()).unwrap(), vec![entry(b"a", b"")]);
    assert_eq!(decode_from_bytes(&b"SFA;a:0:".to_vec()).err(), Some(ErrorKind::InvalidPayload));
}

#[test]
fn invalid_payload() {
    assert_eq!(decode_from_bytes(&b"SFA;a:3:abc".to_vec()).err(), Some(ErrorKind::InvalidPayload));
}

#[test]
fn duplicate_names_last_wins() {
    let bytes = encode_payloads(&vec![entry(b"a", b"x"), entry(b"b", b"y"), entry(b"a", b"z")]).unwrap();
    assert_eq!(bytes, b"SFA;a:1:xb:1:ya:1:z".to_vec());
    let entries = parse(&bytes).unwrap();
    assert_eq!(entries.len(), 3);
    let table = latest_payloads(&entries);
    assert_eq!(table, vec![entry(b"a", b"z"), entry(b"b", b"y")]);
}

#[test]
fn duplicate_images_last_wins() {
    let first = pixel_png(10, 0, 0);
    let second = pixel_png(0, 20, 0);
    let out = encode(&vec![entry(b"a", &first), entry(b"a", &second)]).unwrap();
    let decoded = decode_from_bytes(&out).unwrap();
    assert_eq!(decoded.len(), 1);
    assert_eq!(decoded[0].1.image.to_rgba8().get_pixel(0, 0).0, [0, 20, 0, 255]);
}

#[test]
fn empty_container() {
    let out = encode(&vec![]).unwrap();
    assert_eq!(out, b"SFA;".to_vec());
    assert_eq!(parse(&out).unwrap(), Vec::<(Vec<u8>, Vec<u8>)>::new());
    assert!(decode_from_bytes(&out).unwrap().is_empty());
}

#[test]
fn invalid_length_fields() {
    assert_eq!(parse(&b"SFA;a::".to_vec()), Err(ErrorKind::InvalidLength));
    assert_eq!(parse(&b"SFA;a:1x:x".to_vec()), Err(ErrorKind::InvalidLength));
    assert_eq!(parse(&b"SFA;a:+1:x".to_vec()), Err(ErrorKind::InvalidLength));
    assert_eq!(parse(&b"SFA;a:-1:x".to_vec()), Err(ErrorKind::InvalidLength));
    assert_eq!(
        parse(&b"SFA;a:99999999999999999999999:x".to_vec()),
        Err(ErrorKind::InvalidLength)
    );
}

#[test]
fn truncated_header() {
    assert_eq!(parse(&b"SFA;abc".to_vec()), Err(ErrorKind::TruncatedHeader));
    assert_eq!(parse(&b"SFA;a:12".to_vec()), Err(ErrorKind::TruncatedHeader));
    assert_eq!(parse(&b"SFA;a:1:xb".to_vec()), Err(ErrorKind::TruncatedHeader));
}

#[test]
fn name_with_delimiter_is_refused() {
    assert_eq!(encode_payloads(&vec![entry(b"a:b", b"x")]), Err(ErrorKind::InvalidName));
    let a = pixel_png(0, 0, 0);
    assert_eq!(encode(&vec![entry(b"ok", &a), entry(b"x:y", &a)]), Err(ErrorKind::InvalidName));
}

#[test]
fn unreadable_source() {
    let a = pixel_png(0, 0, 0);
    assert_eq!(encode(&vec![entry(b"a", &a), entry(b"b", b"not an image")]), Err(ErrorKind::SourceUnreadable));
}

#[test]
fn decimal_lengths() {
    let mut v = b"x".to_vec();
    push_decimal(&mut v, 0);
    assert_eq!(v, b"x0".to_vec());
    let mut v = Vec::new();
    push_decimal(&mut v, 1234);
    assert_eq!(v, b"1234".to_vec());
    let mut v = Vec::new();
    push_decimal(&mut v, usize::MAX);
    assert_eq!(v, usize::MAX.to_string().into_bytes());
}

#[test]
fn length_of_largest_size_parses() {
    let text = format!("SFA;a:{}:", usize::MAX);
    assert_eq!(parse(&text.into_bytes()), Err(ErrorKind::TruncatedPayload));
}

#[test]
fn error_keeps_message() {
    let e = Error::new(String::from("bad file"));
    assert_eq!(e.s, "bad file");
}

#[test]
fn bad_payload_reported_before_later_faults() {
    assert_eq!(decode_from_bytes(&b"SFA;a:0:x".to_vec()).err(), Some(ErrorKind::InvalidPayload));
    assert_eq!(decode_from_bytes(&b"SFA;a:3:abcX".to_vec()).err(), Some(ErrorKind::InvalidPayload));
    assert_eq!(parse(&b"SFA;a:0:x".to_vec()), Err(ErrorKind::TruncatedHeader));
    assert_eq!(parse(&b"SFA;a:3:abcX".to_vec()), Err(ErrorKind::TruncatedHeader));
}

#[test]
fn framing_fault_after_good_image() {
    let a = pixel_png(5, 6, 7);
    let mut bytes = encode(&vec![entry(b"a", &a)]).unwrap();
    bytes.extend_from_slice(b"b:2");
    assert_eq!(decode_from_bytes(&bytes).err(), Some(ErrorKind::TruncatedHeader));
}

#[test]
fn one_source_entry() {
    let a = pixel_png(9, 8, 7);
    assert_eq!(encode_source(&b"a".to_vec(), &a).unwrap(), frame(b"a", &reencoded(&a)));
    assert_eq!(encode_source(&b"a:".to_vec(), &a), Err(ErrorKind::InvalidName));
    assert_eq!(encode_source(&b"a".to_vec(), &b"GIF89a?".to_vec()), Err(ErrorKind::SourceUnreadable));
}

#[test]
fn first_source_unreadable() {
    let a = pixel_png(0, 0, 0);
    assert_eq!(encode(&vec![entry(b"a", b"junk"), entry(b"b", &a)]), Err(ErrorKind::SourceUnreadable));
}

#[test]
fn encoding_joined_sources_joins_entries() {
    let xs = vec![entry(b"a", &pixel_png(1, 1, 1))];
    let ys = vec![entry(b"b", &pixel_png(2, 2, 2)), entry(b"c", &pixel_png(3, 3, 3))];
    let mut both = xs.clone();
    both.extend(ys.clone());
    let ex = encode(&xs).unwrap();
    let ey = encode(&ys).unwrap();
    let mut expected = ex.clone();
    expected.extend_from_slice(&ey[4..]);
    assert_eq!(encode(&both).unwrap(), expected);
}
