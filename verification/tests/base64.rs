use gemma4_serving::base64::{base64_decode, decode_data_url};

const ALPHABET: &[u8; 64] = b"ABCDEFGHIJKLMNOPQRSTUVWXYZabcdefghijklmnopqrstuvwxyz0123456789+/";

fn encode(bytes: &[u8]) -> String {
    let mut out = String::new();
    for group in bytes.chunks(3) {
        let n = (group[0] as u32) << 16
            | (*group.get(1).unwrap_or(&0) as u32) << 8
            | *group.get(2).unwrap_or(&0) as u32;
        for i in 0..4 {
            if i <= group.len() {
                out.push(ALPHABET[(n >> (18 - 6 * i) & 63) as usize] as char);
            } else {
                out.push('=');
            }
        }
    }
    out
}

#[test]
fn known_texts_decode() {
    assert_eq!(base64_decode("").unwrap(), Vec::<u8>::new());
    assert_eq!(base64_decode("Zg==").unwrap(), b"f");
    assert_eq!(base64_decode("Zm8=").unwrap(), b"fo");
    assert_eq!(base64_decode("Zm9v").unwrap(), b"foo");
    assert_eq!(base64_decode("Zm9vYmFy").unwrap(), b"foobar");
    assert_eq!(base64_decode("+/+/").unwrap(), vec![0xfb, 0xff, 0xbf]);
}

#[test]
fn encoded_bytes_decode_back() {
    for n in 0..70usize {
        let bytes: Vec<u8> = (0..n).map(|i| (i * 37 + n * 11) as u8).collect();
        assert_eq!(base64_decode(&encode(&bytes)).unwrap(), bytes);
    }
    let all: Vec<u8> = (0..=255).collect();
    assert_eq!(base64_decode(&encode(&all)).unwrap(), all);
}

#[test]
fn padding_may_be_left_out() {
    assert_eq!(base64_decode("Zg").unwrap(), b"f");
    assert_eq!(base64_decode("Zm8").unwrap(), b"fo");
}

#[test]
fn white_space_is_passed_over_and_padding_ends_the_data() {
    assert_eq!(base64_decode(" Zm\n9v\t\r\x0c ").unwrap(), b"foo");
    assert_eq!(base64_decode("Zm9v=!!!").unwrap(), b"foo");
}

#[test]
fn faults_of_base64() {
    assert_eq!(base64_decode("Zm9*").unwrap_err(), "invalid base64 character");
    assert_eq!(base64_decode("Zm9é").unwrap_err(), "invalid base64 character");
    assert_eq!(base64_decode("Zm9vY").unwrap_err(), "truncated base64 data");
    assert_eq!(base64_decode("A").unwrap_err(), "truncated base64 data");
    assert_eq!(base64_decode("A*").unwrap_err(), "invalid base64 character");
}

#[test]
fn data_urls_decode() {
    assert_eq!(decode_data_url("data:image/png;base64,Zm9v").unwrap(), b"foo");
    assert_eq!(decode_data_url("data:base64,Zm9v").unwrap(), b"foo");
}

#[test]
fn faults_of_data_urls() {
    assert_eq!(
        decode_data_url("https://example.com/cat.png").unwrap_err(),
        "image_url.url must be a data: URI (data:<mime>;base64,<data>) -- remote URLs are not supported yet"
    );
    for url in ["http://a,b;base64", "data:image/png,base64", "xdata:;base64,Zm9v"] {
        assert_eq!(
            decode_data_url(url).unwrap_err(),
            "image_url.url must be a base64 data: URI -- remote URLs are not supported yet"
        );
    }
    assert_eq!(
        decode_data_url("data:;base64,A").unwrap_err(),
        "invalid base64 image data: truncated base64 data"
    );
}
