use gemini_video_player::schedule::FrameRate;
use gemini_video_player::transcode::{fps_filter, push_decimal};

fn written(n: u32) -> Vec<u8> {
    let mut out = Vec::new();
    push_decimal(n, &mut out);
    out
}

#[test]
fn numbers_are_written_in_decimal() {
    assert_eq!(written(0), b"0".to_vec());
    assert_eq!(written(7), b"7".to_vec());
    assert_eq!(written(9), b"9".to_vec());
    assert_eq!(written(10), b"10".to_vec());
    assert_eq!(written(60), b"60".to_vec());
    assert_eq!(written(1001), b"1001".to_vec());
    assert_eq!(written(30000), b"30000".to_vec());
    assert_eq!(written(u32::MAX), b"4294967295".to_vec());
}

#[test]
fn a_number_is_written_after_what_is_there() {
    let mut out = b"fps=".to_vec();
    push_decimal(24, &mut out);
    assert_eq!(out, b"fps=24".to_vec());
    push_decimal(0, &mut out);
    assert_eq!(out, b"fps=240".to_vec());
}

#[test]
fn written_numbers_read_as_themselves() {
    for n in [0u32, 1, 9, 10, 11, 99, 100, 101, 12345, 999_999, 1_000_000, u32::MAX] {
        assert_eq!(String::from_utf8(written(n)).unwrap(), n.to_string());
    }
}

#[test]
fn the_filter_names_the_rate_as_a_fraction() {
    let sixty = FrameRate::new(60, 1).unwrap();
    assert_eq!(fps_filter(sixty), b"fps=fps=60/1".to_vec());
    let ntsc = FrameRate::new(30000, 1001).unwrap();
    assert_eq!(fps_filter(ntsc), b"fps=fps=30000/1001".to_vec());
    let slow = FrameRate::new(1, 10).unwrap();
    assert_eq!(fps_filter(slow), b"fps=fps=1/10".to_vec());
}
