use video_ops::color::{hex_to_rgb, rgb_to_hex};
use video_ops::error::EditError;

#[test]
fn decodes_with_hash_upper_case() {
    assert_eq!(hex_to_rgb("#FF0000"), Ok((255, 0, 0)));
}

#[test]
fn decodes_without_hash_mixed_case() {
    assert_eq!(hex_to_rgb("00fF7f"), Ok((0, 255, 127)));
    assert_eq!(hex_to_rgb("#000000"), Ok((0, 0, 0)));
    assert_eq!(hex_to_rgb("1a2B3c"), Ok((0x1a, 0x2b, 0x3c)));
}

#[test]
fn rejects_wrong_length() {
    assert_eq!(hex_to_rgb("#12345"), Err(EditError::InvalidColor));
    assert_eq!(hex_to_rgb("1234567"), Err(EditError::InvalidColor));
    assert_eq!(hex_to_rgb(""), Err(EditError::InvalidColor));
    assert_eq!(hex_to_rgb("#"), Err(EditError::InvalidColor));
}

#[test]
fn rejects_non_hex_digits() {
    assert_eq!(hex_to_rgb("#12345g"), Err(EditError::InvalidColor));
    assert_eq!(hex_to_rgb("+f+f+f"), Err(EditError::InvalidColor));
    assert_eq!(hex_to_rgb("aé345"), Err(EditError::InvalidColor));
}

#[test]
fn only_one_hash_is_stripped() {
    assert_eq!(hex_to_rgb("##000000"), Err(EditError::InvalidColor));
}

#[test]
fn encodes_lower_case_digits() {
    assert_eq!(rgb_to_hex(255, 0, 127), "ff007f");
    assert_eq!(rgb_to_hex(0, 0, 0), "000000");
}

#[test]
fn decode_then_encode_round_trip() {
    for text in ["#A0b1C2", "ffffff", "#0f0F0f", "123abc"] {
        let (r, g, b) = hex_to_rgb(text).unwrap();
        let digits = text.trim_start_matches('#').to_lowercase();
        assert_eq!(rgb_to_hex(r, g, b), digits);
    }
    for (r, g, b) in [(1u8, 2u8, 3u8), (255, 128, 0), (16, 15, 254)] {
        assert_eq!(hex_to_rgb(&rgb_to_hex(r, g, b)), Ok((r, g, b)));
    }
}
