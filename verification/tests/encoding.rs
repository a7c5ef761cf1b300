use base64::engine::general_purpose::STANDARD;
use base64::Engine;
use wynn_browser::encoding;

fn samples() -> Vec<Vec<u8>> {
    let mut all: Vec<Vec<u8>> = vec![];
    for n in 0..70usize {
        all.push((0..n).map(|i| (i * 37 + n * 11) as u8).collect());
    }
    all
}

#[test]
fn encodes_known_texts() {
    assert_eq!(encoding::base64_encode(b""), "");
    assert_eq!(encoding::base64_encode(b"f"), "Zg==");
    assert_eq!(encoding::base64_encode(b"fo"), "Zm8=");
    assert_eq!(encoding::base64_encode(b"foo"), "Zm9v");
    assert_eq!(encoding::base64_encode(b"foob"), "Zm9vYg==");
    assert_eq!(encoding::base64_encode(&[0xfb, 0xff, 0xfe]), "+//+");
}

#[test]
fn agrees_with_the_standard_encoding() {
    for data in samples() {
        let armoured = encoding::base64_encode(&data);
        assert_eq!(armoured, STANDARD.encode(&data));
        assert_eq!(armoured.len(), (data.len() + 2) / 3 * 4);
        assert_eq!(STANDARD.decode(&armoured).unwrap(), data);
    }
}

#[test]
fn decoding_gives_back_what_was_encoded() {
    for data in samples() {
        assert_eq!(encoding::base64_decode(&encoding::base64_encode(&data)), Some(data));
    }
}

#[test]
fn decoding_skips_white_space() {
    assert_eq!(encoding::base64_decode(" Zm9v\nYg= =\t"), Some(b"foob".to_vec()));
    assert_eq!(encoding::base64_decode(""), Some(vec![]));
}

#[test]
fn decoding_refuses_other_texts() {
    assert_eq!(encoding::base64_decode("Zm9"), None);
    assert_eq!(encoding::base64_decode("Zm9!"), None);
    assert_eq!(encoding::base64_decode("Zm9v-_8="), None);
    assert_eq!(encoding::base64_decode("Zmé"), None);
}

#[test]
fn decoding_takes_padding_anywhere_for_zero() {
    // A padding symbol counts as zero, and drops the byte it stands for.
    assert_eq!(encoding::base64_decode("=AAA"), Some(vec![0, 0, 0]));
    assert_eq!(encoding::base64_decode("AA=A"), Some(vec![0, 0]));
    assert_eq!(encoding::base64_decode("===="), Some(vec![0]));
    assert_eq!(encoding::base64_decode("Zg==Zg=="), Some(b"ff".to_vec()));
}

#[test]
fn different_data_have_different_encodings() {
    let all = samples();
    for (i, a) in all.iter().enumerate() {
        for (j, b) in all.iter().enumerate() {
            if i != j {
                assert_ne!(encoding::base64_encode(a), encoding::base64_encode(b));
            }
        }
    }
}
