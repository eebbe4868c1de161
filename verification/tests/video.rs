use gemini_video_player::canvas::WrapPolicy;
use gemini_video_player::frame::Frame;
use gemini_video_player::order::Still;
use gemini_video_player::schedule::{canvas_for, FrameRate, PlaybackState, Scheduler};
use gemini_video_player::{
    frame_of_decoded, get_video_filepath, load_frame, ErrorKind, LoadError, Settings, StillFault,
    Video,
};

fn png_bytes(image: image::DynamicImage) -> Vec<u8> {
    let mut out = std::io::Cursor::new(Vec::new());
    image.write_to(&mut out, image::ImageOutputFormat::Png).unwrap();
    out.into_inner()
}

fn solid_png(width: u32, height: u32, colour: [u8; 3]) -> Vec<u8> {
    png_bytes(image::DynamicImage::ImageRgb8(image::RgbImage::from_pixel(
        width,
        height,
        image::Rgb(colour),
    )))
}

fn numbered(n: u32, data: Vec<u8>) -> Still {
    Still { name: format!("frame_{:06}.png", n).into_bytes(), data }
}

fn ten_a_second() -> FrameRate {
    FrameRate::new(10, 1).unwrap()
}

#[test]
fn the_path_is_the_one_argument() {
    let args = vec![String::from("player"), String::from("clip.mp4")];
    assert_eq!(get_video_filepath(&args), Ok("clip.mp4"));
}

#[test]
fn any_other_number_of_arguments_is_a_usage_error() {
    assert_eq!(get_video_filepath(&[]), Err(ErrorKind::Usage));
    assert_eq!(get_video_filepath(&[String::from("player")]), Err(ErrorKind::Usage));
    let three = vec![String::from("player"), String::from("a.mp4"), String::from("b.mp4")];
    assert_eq!(get_video_filepath(&three), Err(ErrorKind::Usage));
}

#[test]
fn the_standard_settings() {
    let settings = Settings::default();
    assert_eq!(settings.width, 350);
    assert_eq!(settings.height, 90);
    assert_eq!(settings.fps, FrameRate { frames: 60, seconds: 1 });
    assert_eq!(settings.pixel_char, '\u{2588}');
    assert_eq!(settings.wrapping, WrapPolicy::Ignore);
}

#[test]
fn load_errors_have_their_kind() {
    assert_eq!(LoadError::NoFrames.kind(), ErrorKind::Extraction);
    assert_eq!(LoadError::Misnumbered { still: 3 }.kind(), ErrorKind::Extraction);
    assert_eq!(
        LoadError::Unusable { still: 0, fault: StillFault::Malformed }.kind(),
        ErrorKind::Decode
    );
    assert_eq!(
        LoadError::Unusable { still: 0, fault: StillFault::NotRgb }.kind(),
        ErrorKind::Decode
    );
    assert_eq!(
        LoadError::Unusable { still: 0, fault: StillFault::Unfit }.kind(),
        ErrorKind::Decode
    );
}

#[test]
fn a_still_is_decoded_to_its_samples() {
    let mut picture = image::RgbImage::new(2, 2);
    picture.put_pixel(0, 0, image::Rgb([1, 2, 3]));
    picture.put_pixel(1, 0, image::Rgb([4, 5, 6]));
    picture.put_pixel(0, 1, image::Rgb([7, 8, 9]));
    picture.put_pixel(1, 1, image::Rgb([10, 11, 12]));
    let data = png_bytes(image::DynamicImage::ImageRgb8(picture));
    let frame = load_frame(&data, 2, 2).unwrap();
    assert_eq!(frame, Frame::new(2, 2, vec![1, 2, 3, 4, 5, 6, 7, 8, 9, 10, 11, 12]).unwrap());
}

#[test]
fn a_still_is_resized_as_it_is_loaded() {
    let data = solid_png(640, 480, [20, 40, 60]);
    let frame = load_frame(&data, 350, 90).unwrap();
    assert_eq!((frame.width, frame.height), (120, 90));
    assert_eq!(&frame.pixels[0..6], &[20, 40, 60, 20, 40, 60]);
    assert_eq!(frame.pixels.len(), 3 * 120 * 90);
}

#[test]
fn bytes_that_are_no_image_are_malformed() {
    assert_eq!(load_frame(&b"not an image".to_vec(), 2, 2), Err(StillFault::Malformed));
    assert_eq!(load_frame(&vec![], 2, 2), Err(StillFault::Malformed));
    let mut cut = solid_png(4, 4, [1, 2, 3]);
    cut.truncate(20);
    assert_eq!(load_frame(&cut, 2, 2), Err(StillFault::Malformed));
}

#[test]
fn an_image_with_other_samples_is_not_rgb() {
    let rgba = png_bytes(image::DynamicImage::ImageRgba8(image::RgbaImage::new(2, 2)));
    assert_eq!(load_frame(&rgba, 2, 2), Err(StillFault::NotRgb));
    let grey = png_bytes(image::DynamicImage::ImageLuma8(image::GrayImage::new(2, 2)));
    assert_eq!(load_frame(&grey, 2, 2), Err(StillFault::NotRgb));
}

#[test]
fn a_target_too_large_is_unfit() {
    let data = solid_png(2, 2, [1, 2, 3]);
    assert_eq!(load_frame(&data, u32::MAX, u32::MAX), Err(StillFault::Unfit));
}

#[test]
fn what_the_decoder_gave_decides_the_frame() {
    assert_eq!(frame_of_decoded(Ok(None), 2, 2), Err(StillFault::NotRgb));
    let failure = image::load_from_memory(b"junk").unwrap_err();
    assert_eq!(frame_of_decoded(Err(failure), 2, 2), Err(StillFault::Malformed));
    let empty = Frame::new(0, 0, vec![]).unwrap();
    assert_eq!(frame_of_decoded(Ok(Some(empty)), 2, 2), Err(StillFault::Unfit));
    let short = Frame { width: 2, height: 2, pixels: vec![0; 11] };
    assert_eq!(frame_of_decoded(Ok(Some(short)), 2, 2), Err(StillFault::Unfit));
    let sound = Frame::new(1, 1, vec![5, 6, 7]).unwrap();
    assert_eq!(
        frame_of_decoded(Ok(Some(sound)), 2, 2),
        Ok(Frame::new(2, 2, vec![5, 6, 7, 5, 6, 7, 5, 6, 7, 5, 6, 7]).unwrap())
    );
}

#[test]
fn a_video_takes_its_size_from_its_first_frame() {
    let frames = vec![Frame::new(2, 1, vec![0; 6]).unwrap(), Frame::new(1, 1, vec![0; 3]).unwrap()];
    let video = Video::assemble(frames.clone(), ten_a_second());
    assert_eq!((video.width, video.height), (2, 1));
    assert_eq!(video.frames, frames);
    assert_eq!(video.fps, ten_a_second());
    let none = Video::assemble(vec![], ten_a_second());
    assert_eq!((none.width, none.height), (0, 0));
    assert!(none.frames.is_empty());
}

#[test]
fn no_stills_make_no_video() {
    let r = Video::new(350, 90, ten_a_second(), &vec![]);
    assert_eq!(r.unwrap_err(), LoadError::NoFrames);
}

#[test]
fn a_video_has_one_frame_for_each_still() {
    for count in [1u32, 2, 5, 12] {
        let stills: Vec<Still> =
            (1..=count).map(|n| numbered(n, solid_png(4, 4, [n as u8, 0, 0]))).collect();
        let video = Video::new(4, 4, ten_a_second(), &stills).unwrap();
        assert_eq!(video.frames.len(), count as usize);
    }
}

#[test]
fn every_frame_has_the_size_of_the_video() {
    let stills: Vec<Still> =
        (1..=6).map(|n| numbered(n, solid_png(640, 480, [n as u8, 0, 0]))).collect();
    let video = Video::new(350, 90, ten_a_second(), &stills).unwrap();
    assert_eq!((video.width, video.height), (120, 90));
    for frame in &video.frames {
        assert_eq!((frame.width, frame.height), (video.width, video.height));
        assert!(frame.is_drawable());
    }
}

#[test]
fn frames_come_in_the_order_of_the_numbers_in_the_names() {
    let mut stills = Vec::new();
    for n in [3u32, 11, 1, 10, 2, 9, 4, 8, 5, 7, 6] {
        stills.push(numbered(n, solid_png(1, 1, [n as u8, 2 * n as u8, 0])));
    }
    let video = Video::new(1, 1, ten_a_second(), &stills).unwrap();
    let reds: Vec<u8> = video.frames.iter().map(|frame| frame.pixels[0]).collect();
    assert_eq!(reds, vec![1, 2, 3, 4, 5, 6, 7, 8, 9, 10, 11]);
    let greens: Vec<u8> = video.frames.iter().map(|frame| frame.pixels[1]).collect();
    assert_eq!(greens, vec![2, 4, 6, 8, 10, 12, 14, 16, 18, 20, 22]);
}

#[test]
fn stills_numbered_without_padding_make_no_video() {
    let stills = vec![
        Still { name: b"frame_1.png".to_vec(), data: solid_png(1, 1, [1, 1, 1]) },
        Still { name: b"frame_2.png".to_vec(), data: solid_png(1, 1, [2, 2, 2]) },
        Still { name: b"frame_10.png".to_vec(), data: solid_png(1, 1, [3, 3, 3]) },
    ];
    let r = Video::new(1, 1, ten_a_second(), &stills);
    assert_eq!(r.unwrap_err(), LoadError::Misnumbered { still: 1 });
}

#[test]
fn a_still_without_a_number_makes_no_video() {
    let stills = vec![
        numbered(1, solid_png(1, 1, [1, 1, 1])),
        Still { name: b"thumbs.db".to_vec(), data: vec![] },
    ];
    let r = Video::new(1, 1, ten_a_second(), &stills);
    assert_eq!(r.unwrap_err(), LoadError::Misnumbered { still: 1 });
}

#[test]
fn a_bad_numbering_is_told_before_a_bad_still() {
    let stills = vec![
        Still { name: b"frame_2.png".to_vec(), data: b"junk".to_vec() },
        Still { name: b"frame_10.png".to_vec(), data: b"junk".to_vec() },
    ];
    let r = Video::new(1, 1, ten_a_second(), &stills);
    assert_eq!(r.unwrap_err(), LoadError::Misnumbered { still: 0 });
}

#[test]
fn a_still_that_fails_to_decode_partway_ends_the_load() {
    let stills = vec![
        numbered(3, solid_png(2, 2, [3, 3, 3])),
        numbered(2, b"broken".to_vec()),
        numbered(1, solid_png(2, 2, [1, 1, 1])),
    ];
    let r = Video::new(2, 2, ten_a_second(), &stills);
    let error = r.unwrap_err();
    assert_eq!(error, LoadError::Unusable { still: 1, fault: StillFault::Malformed });
    assert_eq!(error.kind(), ErrorKind::Decode);
}

#[test]
fn the_first_bad_still_in_the_order_of_play_is_told() {
    let rgba = png_bytes(image::DynamicImage::ImageRgba8(image::RgbaImage::new(2, 2)));
    let stills = vec![
        numbered(4, b"broken".to_vec()),
        numbered(3, rgba),
        numbered(2, solid_png(2, 2, [1, 1, 1])),
    ];
    let r = Video::new(2, 2, ten_a_second(), &stills);
    assert_eq!(r.unwrap_err(), LoadError::Unusable { still: 1, fault: StillFault::NotRgb });
}

#[test]
fn stills_of_different_sizes_keep_their_own_sizes() {
    let stills =
        vec![numbered(1, solid_png(4, 2, [1, 1, 1])), numbered(2, solid_png(2, 4, [2, 2, 2]))];
    let video = Video::new(2, 2, ten_a_second(), &stills).unwrap();
    assert_eq!((video.width, video.height), (2, 1));
    assert_eq!((video.frames[0].width, video.frames[0].height), (2, 1));
    assert_eq!((video.frames[1].width, video.frames[1].height), (1, 2));
}

#[test]
fn three_solid_frames_at_ten_a_second() {
    let stills = vec![
        numbered(1, solid_png(2, 2, [200, 0, 0])),
        numbered(2, solid_png(2, 2, [0, 200, 0])),
        numbered(3, solid_png(2, 2, [0, 0, 200])),
    ];
    let video = Video::new(2, 2, ten_a_second(), &stills).unwrap();
    assert_eq!(video.frames.len(), 3);
    assert_eq!((video.width, video.height), (2, 2));
    for frame in &video.frames {
        assert_eq!((frame.width, frame.height), (2, 2));
    }
    assert_eq!(video.frames[0].pixels, vec![200, 0, 0, 200, 0, 0, 200, 0, 0, 200, 0, 0]);
    assert_eq!(video.frames[1].pixels, vec![0, 200, 0, 0, 200, 0, 0, 200, 0, 0, 200, 0]);
    assert_eq!(video.frames[2].pixels, vec![0, 0, 200, 0, 0, 200, 0, 0, 200, 0, 0, 200]);

    let budget = video.fps.frame_budget();
    assert_eq!(budget, 100_000_000);
    let mut view = canvas_for(&video).unwrap();
    assert_eq!((view.width, view.height), (4, 2));
    let mut scheduler = Scheduler::new();
    let mut shows = 0;
    let mut clock: u128 = 0;
    let mut shown_at = Vec::new();
    while !scheduler.finished(video.frames.len()) {
        assert_eq!(scheduler.state, PlaybackState::Render);
        let took: u128 = 1_000_000;
        if scheduler.draw(&video, &mut view, '#', WrapPolicy::Ignore) {
            shows += 1;
            shown_at.push(clock);
        }
        let pause = scheduler.pace(took, budget).unwrap();
        clock += took + pause as u128;
    }
    assert_eq!(shows, 3);
    assert_eq!(shown_at, vec![0, 100_000_000, 200_000_000]);
    assert_eq!(scheduler.position, 3);
}
