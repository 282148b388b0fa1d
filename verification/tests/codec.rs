// Exercises the embed/extract protocol end to end on in-memory images.

use steganography::settings::Settings;
use steganography::surface::ImageSurface;
use steganography::steg::{FileEntry, Steganography};
use steganography::StegError;

// A 100x100 RGB image with a 1/10 fill ratio: 30_000 channel bytes,
// capacity 3_000 bytes.
fn one_tenth_settings() -> Settings {
    Settings::new(b"PICCODER".to_vec(), 1, 10, 1000, 100).unwrap()
}

fn blank_rgb(width: u32, height: u32, fill: u8) -> ImageSurface {
    let n = (width as usize) * (height as usize) * 3;
    ImageSurface::from_parts(width, height, 3, vec![fill; n]).unwrap()
}

fn entry(name: &[u8], content: Vec<u8>) -> FileEntry {
    FileEntry { name: name.to_vec(), content }
}

#[test]
fn capacity_of_100x100_rgb_at_one_tenth_is_3000() {
    let mut steg = Steganography::init(one_tenth_settings());
    steg.load_new_file(Some(blank_rgb(100, 100, 0)));
    assert_eq!(steg.embed_capacity, 3000);
}

#[test]
fn embedding_500_bytes_in_3000_byte_capacity_succeeds() {
    let mut steg = Steganography::init(one_tenth_settings());
    steg.load_new_file(Some(blank_rgb(100, 100, 0)));
    let files = vec![entry(b"doc.txt", vec![7u8; 500])];
    assert!(steg.embed_files(false, b"", &files).is_ok());
}

#[test]
fn embedding_3500_bytes_in_3000_byte_capacity_is_rejected() {
    let mut steg = Steganography::init(one_tenth_settings());
    steg.load_new_file(Some(blank_rgb(100, 100, 0)));
    let before = match &steg.image {
        Some(img) => img.data.clone(),
        None => panic!("image not loaded"),
    };
    let files = vec![entry(b"a.bin", vec![1u8; 2000]), entry(b"b.bin", vec![2u8; 1500])];
    assert_eq!(steg.embed_files(false, b"", &files), Err(StegError::CapacityExceeded));
    let after = match &steg.image {
        Some(img) => img.data.clone(),
        None => panic!("image not loaded"),
    };
    assert_eq!(before, after);
}

#[test]
fn embed_then_extract_reproduces_every_file() {
    let mut steg = Steganography::init(one_tenth_settings());
    steg.load_new_file(Some(blank_rgb(100, 100, 0x5a)));
    let files = vec![
        entry(b"first.txt", b"hello, carrier pixels".to_vec()),
        entry(b"second.bin", vec![0u8, 255, 3, 128, 77]),
        entry(b"empty", Vec::new()),
    ];
    assert!(steg.embed_files(false, b"", &files).is_ok());
    let written = steg.image.take();

    let mut reader = Steganography::init(one_tenth_settings());
    let got = reader.extract_from_image(written, None).unwrap();
    assert_eq!(got.len(), 3);
    assert_eq!(got[0].name, b"first.txt".to_vec());
    assert_eq!(got[0].content, b"hello, carrier pixels".to_vec());
    assert_eq!(got[1].name, b"second.bin".to_vec());
    assert_eq!(got[1].content, vec![0u8, 255, 3, 128, 77]);
    assert_eq!(got[2].name, b"empty".to_vec());
    assert_eq!(got[2].content, Vec::<u8>::new());
}

#[test]
fn password_abc123_stores_y_flag_and_matching_digest() {
    let mut steg = Steganography::init(one_tenth_settings());
    steg.load_new_file(Some(blank_rgb(100, 100, 0)));
    let files = vec![entry(b"secret.txt", b"hidden".to_vec())];
    assert!(steg.embed_files(true, b"abc123", &files).is_ok());
    let written = steg.image.take();

    // Reloading finds the 'Y' flag, and the stored digest matches the
    // digest of "abc123" again.
    let mut reader = Steganography::init(one_tenth_settings());
    reader.load_new_file(written);
    assert!(reader.pic_coded);
    assert!(reader.pic_has_pw);
    reader.check_valid_password(b"abc123");
    assert!(reader.user_permit);
}

#[test]
fn wrong_password_is_denied() {
    let mut steg = Steganography::init(one_tenth_settings());
    steg.load_new_file(Some(blank_rgb(100, 100, 0)));
    let files = vec![entry(b"secret.txt", b"hidden".to_vec())];
    assert!(steg.embed_files(true, b"abc123", &files).is_ok());
    let written = steg.image.take();

    let mut reader = Steganography::init(one_tenth_settings());
    let r = reader.extract_from_image(written, Some(b"wrong"));
    assert_eq!(r.unwrap_err(), StegError::PasswordMismatch);
}

#[test]
fn password_verification_is_deterministic() {
    let mut steg = Steganography::init(one_tenth_settings());
    steg.load_new_file(Some(blank_rgb(100, 100, 0)));
    let files = vec![entry(b"f", b"x".to_vec())];
    assert!(steg.embed_files(true, b"abc123", &files).is_ok());
    let written = steg.image.take().unwrap();

    // Twice with the correct password: granted both times.
    for _ in 0..2 {
        let mut reader = Steganography::init(one_tenth_settings());
        reader.load_new_file(Some(clone_surface(&written)));
        reader.check_valid_password(b"abc123");
        assert!(reader.user_permit);
    }
    // Twice with a wrong password: denied both times.
    for _ in 0..2 {
        let mut reader = Steganography::init(one_tenth_settings());
        reader.load_new_file(Some(clone_surface(&written)));
        reader.check_valid_password(b"wr0ng");
        assert!(!reader.user_permit);
    }
}

fn clone_surface(img: &ImageSurface) -> ImageSurface {
    ImageSurface::from_parts(img.width, img.height, img.channels, img.data.clone()).unwrap()
}

#[test]
fn password_protected_extract_with_correct_password_succeeds() {
    let mut steg = Steganography::init(one_tenth_settings());
    steg.load_new_file(Some(blank_rgb(100, 100, 9)));
    let files = vec![entry(b"n", b"payload".to_vec())];
    assert!(steg.embed_files(true, b"abc123", &files).is_ok());
    let written = steg.image.take();

    let mut reader = Steganography::init(one_tenth_settings());
    let got = reader.extract_from_image(written, Some(b"abc123")).unwrap();
    assert_eq!(got.len(), 1);
    assert_eq!(got[0].name, b"n".to_vec());
    assert_eq!(got[0].content, b"payload".to_vec());
}

#[test]
fn random_pixels_are_reported_not_coded_without_panicking() {
    // Fixed pseudo-random pixel data: a linear congruential generator.
    let mut state: u64 = 0x2545F4914F6CDD1D;
    let mut data = Vec::with_capacity(30_000);
    for _ in 0..30_000 {
        state = state.wrapping_mul(6364136223846793005).wrapping_add(1442695040888963407);
        data.push((state >> 33) as u8);
    }
    let img = ImageSurface::from_parts(100, 100, 3, data).unwrap();
    let mut steg = Steganography::init(one_tenth_settings());
    steg.load_new_file(Some(img));
    assert!(!steg.pic_coded);
}

#[test]
fn too_small_image_short_circuits_to_capacity_too_small() {
    // 10x10 RGB with ratio 1/10: capacity 30 bytes, below the minimum of
    // 1000, so the signature check is never attempted.
    let mut steg = Steganography::init(one_tenth_settings());
    steg.load_new_file(Some(blank_rgb(10, 10, 0)));
    assert!(!steg.pic_coded);
    let mut reader = Steganography::init(one_tenth_settings());
    let r = reader.extract_from_image(Some(blank_rgb(10, 10, 0)), None);
    assert_eq!(r.unwrap_err(), StegError::CapacityTooSmall);
}

#[test]
fn missing_image_is_an_image_load_error() {
    let mut steg = Steganography::init(one_tenth_settings());
    let r = steg.extract_from_image(None, None);
    assert_eq!(r.unwrap_err(), StegError::ImageLoadError);
}

#[test]
fn uncoded_image_is_a_signature_mismatch() {
    let mut steg = Steganography::init(one_tenth_settings());
    let r = steg.extract_from_image(Some(blank_rgb(100, 100, 0)), None);
    assert_eq!(r.unwrap_err(), StegError::SignatureMismatch);
}

#[test]
fn stream_larger_than_image_is_a_short_write() {
    // A 20x20 RGB image with ratio 1/1: capacity 1200 bytes and 1200
    // stream bytes.  1150 content bytes pass the capacity check but the
    // framed stream (signature, sections, headers) no longer fits.
    let settings = Settings::new(b"PICCODER".to_vec(), 1, 1, 1000, 100).unwrap();
    let mut steg = Steganography::init(settings);
    steg.load_new_file(Some(blank_rgb(20, 20, 0)));
    assert_eq!(steg.embed_capacity, 1200);
    let files = vec![entry(b"big.bin", vec![5u8; 1190])];
    assert_eq!(steg.embed_files(false, b"", &files), Err(StegError::ShortReadWrite));
}

#[test]
fn two_channel_layout_is_unsupported() {
    let r = ImageSurface::from_parts(4, 4, 2, vec![0u8; 32]);
    assert_eq!(r.unwrap_err(), StegError::UnsupportedFormat);
}

#[test]
fn mismatched_buffer_length_is_unsupported() {
    let r = ImageSurface::from_parts(4, 4, 3, vec![0u8; 47]);
    assert_eq!(r.unwrap_err(), StegError::UnsupportedFormat);
}

#[test]
fn zero_files_round_trip() {
    let mut steg = Steganography::init(one_tenth_settings());
    steg.load_new_file(Some(blank_rgb(100, 100, 0)));
    assert!(steg.embed_files(false, b"", &[]).is_ok());
    let written = steg.image.take();

    let mut reader = Steganography::init(one_tenth_settings());
    let got = reader.extract_from_image(written, None).unwrap();
    assert!(got.is_empty());
}

#[test]
fn empty_container_stores_signature_flag_and_zero_count() {
    let mut steg = Steganography::init(one_tenth_settings());
    steg.load_new_file(Some(blank_rgb(100, 100, 0)));
    assert!(steg.embed_files(false, b"", &[]).is_ok());
    let written = steg.image.take();

    // Reloading consumes the signature and the 'N' flag; the next three
    // stream bytes are the zero-padded file count.
    let mut reader = Steganography::init(one_tenth_settings());
    reader.load_new_file(written);
    assert!(reader.pic_coded);
    assert!(!reader.pic_has_pw);
    reader.read_data_from_image(3);
    assert_eq!(reader.bytes_read, 3);
    assert_eq!(reader.code_bytes, b"000".to_vec());
}

#[test]
fn re_embedding_overwrites_the_previous_content() {
    let mut steg = Steganography::init(one_tenth_settings());
    steg.load_new_file(Some(blank_rgb(100, 100, 0)));
    let first = vec![entry(b"old.txt", b"first payload".to_vec())];
    assert!(steg.embed_files(false, b"", &first).is_ok());
    let second = vec![entry(b"new.txt", b"second payload".to_vec())];
    assert!(steg.embed_files(false, b"", &second).is_ok());
    let written = steg.image.take();

    let mut reader = Steganography::init(one_tenth_settings());
    let got = reader.extract_from_image(written, None).unwrap();
    assert_eq!(got.len(), 1);
    assert_eq!(got[0].name, b"new.txt".to_vec());
    assert_eq!(got[0].content, b"second payload".to_vec());
}

#[test]
fn rgba_images_carry_payload_in_all_four_planes() {
    let n = 50 * 50 * 4;
    let img = ImageSurface::from_parts(50, 50, 4, vec![0xc3u8; n]).unwrap();
    let mut steg = Steganography::init(one_tenth_settings());
    steg.load_new_file(Some(img));
    assert_eq!(steg.embed_capacity, 1000);
    let files = vec![entry(b"alpha.bin", vec![0xAAu8; 800])];
    assert!(steg.embed_files(false, b"", &files).is_ok());
    let written = steg.image.take();

    let mut reader = Steganography::init(one_tenth_settings());
    let got = reader.extract_from_image(written, None).unwrap();
    assert_eq!(got.len(), 1);
    assert_eq!(got[0].name, b"alpha.bin".to_vec());
    assert_eq!(got[0].content, vec![0xAAu8; 800]);
}

#[test]
fn unreadable_signature_is_a_short_read_not_a_mismatch() {
    // A 4x4 RGB image holds 48 stream bytes; with ratio 1/1 its capacity
    // of 48 clears a minimum of 1, but a 50-byte signature cannot be
    // read in full, which is a fatal transfer error.
    let settings = Settings::new(vec![65u8; 50], 1, 1, 1, 16).unwrap();
    let mut steg = Steganography::init(settings);
    let img = ImageSurface::from_parts(4, 4, 3, vec![0u8; 48]).unwrap();
    let r = steg.extract_from_image(Some(img), None);
    assert_eq!(r.unwrap_err(), StegError::ShortReadWrite);
}
