use phira_model::file::{PZFile, THUMBNAIL_HEIGHT, THUMBNAIL_HOST, THUMBNAIL_WIDTH};
use phira_model::level::LevelType;
use phira_model::position::{MusicPosition, ILLEGAL_POSITION};

fn decode(text: &str) -> Result<MusicPosition, &'static str> {
    MusicPosition::try_from(text.to_owned())
}

#[test]
fn position_decodes_three_fields() {
    assert_eq!(decode("1:2:3"), Ok(MusicPosition { seconds: 3723 }));
    assert_eq!(decode("00:00:00"), Ok(MusicPosition { seconds: 0 }));
    assert_eq!(decode("0:90:75"), Ok(MusicPosition { seconds: 5475 }));
    assert_eq!(decode("+1:+2:+3"), Ok(MusicPosition { seconds: 3723 }));
    assert_eq!(decode("007:08:09"), Ok(MusicPosition { seconds: 25689 }));
}

#[test]
fn position_with_two_fields_is_illegal() {
    assert_eq!(decode("1:2"), Err("illegal position"));
    assert_eq!(ILLEGAL_POSITION, "illegal position");
}

#[test]
fn position_rejects_malformed_text() {
    for text in [
        "", "1", ":", "::", "1::3", ":2:3", "1:2:", "a:b:c", "1:2:x", "1:2:3:4", "1:2:3 ", " 1:2:3",
        "-1:2:3", "+:2:3", "1:2:+", "1:2:3\u{0661}", "1.5:2:3", "\u{ff11}:2:3",
    ] {
        assert_eq!(decode(text), Err("illegal position"), "{:?}", text);
    }
}

#[test]
fn position_respects_the_u32_range() {
    assert_eq!(decode("0:0:4294967295"), Ok(MusicPosition { seconds: u32::MAX }));
    assert_eq!(decode("0:0:4294967296"), Err("illegal position"));
    assert_eq!(decode("0:0:99999999999999999999"), Err("illegal position"));
    assert_eq!(decode("1193046:28:15"), Ok(MusicPosition { seconds: u32::MAX }));
    assert_eq!(decode("1193046:28:16"), Err("illegal position"));
    assert_eq!(decode("4294967295:0:0"), Err("illegal position"));
}

#[test]
fn position_encodes_minutes_and_seconds() {
    assert_eq!(MusicPosition { seconds: 0 }.to_string(), "00:00:00");
    assert_eq!(MusicPosition { seconds: 7 }.to_string(), "00:00:07");
    assert_eq!(MusicPosition { seconds: 59 }.to_string(), "00:00:59");
    assert_eq!(MusicPosition { seconds: 60 }.to_string(), "00:01:00");
    assert_eq!(MusicPosition { seconds: 3723 }.to_string(), "00:62:03");
    assert_eq!(MusicPosition { seconds: 6000 }.to_string(), "00:100:00");
    assert_eq!(MusicPosition { seconds: u32::MAX }.to_string(), "00:71582788:15");
}

#[test]
fn position_decode_then_encode_folds_the_hour() {
    for (h, m, s) in [(0u32, 0u32, 0u32), (1, 2, 3), (2, 59, 59), (0, 75, 90), (10, 0, 5)] {
        let total = h * 3600 + m * 60 + s;
        let decoded = decode(&format!("{}:{}:{}", h, m, s)).unwrap();
        assert_eq!(decoded.seconds, total);
        assert_eq!(decoded.to_string(), format!("00:{:02}:{:02}", total / 60, total % 60));
    }
}

#[test]
fn position_text_reads_back() {
    for seconds in [0u32, 1, 59, 60, 61, 3599, 3600, 86399, 1_000_000, u32::MAX] {
        let text = MusicPosition { seconds }.to_string();
        assert_eq!(decode(&text), Ok(MusicPosition { seconds }));
    }
}

#[test]
fn level_ordinals_are_matched_one_to_one() {
    let levels = [LevelType::EZ, LevelType::HD, LevelType::IN, LevelType::AT, LevelType::SP];
    for (value, level) in levels.iter().enumerate() {
        assert_eq!(LevelType::try_from(value as u8), Ok(*level));
        assert_eq!(level.ordinal(), value as u8);
    }
}

#[test]
fn level_rejects_other_ordinals_by_name() {
    assert_eq!(LevelType::try_from(5), Err("illegal level type: 5".to_owned()));
    assert_eq!(LevelType::try_from(10), Err("illegal level type: 10".to_owned()));
    assert_eq!(LevelType::try_from(99), Err("illegal level type: 99".to_owned()));
    assert_eq!(LevelType::try_from(100), Err("illegal level type: 100".to_owned()));
    assert_eq!(LevelType::try_from(255), Err("illegal level type: 255".to_owned()));
    for value in 5..=255u8 {
        assert_eq!(LevelType::try_from(value), Err(format!("illegal level type: {}", value)));
    }
}

#[test]
fn thumbnail_on_the_resizing_host_appends_the_query() {
    let file = PZFile { url: "https://phira.mivik.cn/files/abc.png".to_owned() };
    assert!(file.on_thumbnail_host());
    assert_eq!(file.thumbnail().url, "https://phira.mivik.cn/files/abc.png?imageView/0/w/347/h/200");
    assert_eq!(
        file.thumbnail().url,
        format!("{}?imageView/0/w/{}/h/{}", file.url, THUMBNAIL_WIDTH, THUMBNAIL_HEIGHT)
    );
    let root = PZFile { url: THUMBNAIL_HOST.to_owned() };
    assert_eq!(root.thumbnail().url, "https://phira.mivik.cn/?imageView/0/w/347/h/200");
}

#[test]
fn thumbnail_elsewhere_is_the_resource_itself() {
    for url in [
        "https://example.com/a.png",
        "http://phira.mivik.cn/a.png",
        "https://phira.mivik.cn",
        "https://phira.mivik.cn.evil/a.png",
        "",
        "x https://phira.mivik.cn/a.png",
    ] {
        let file = PZFile { url: url.to_owned() };
        assert!(!file.on_thumbnail_host());
        assert_eq!(file.thumbnail().url, url);
    }
}

#[test]
fn resized_names_width_and_height() {
    let file = PZFile { url: "u".to_owned() };
    assert_eq!(file.resized(0, 4294967295).url, "u?imageView/0/w/0/h/4294967295");
    assert_eq!(file.resized(1080, 9).url, "u?imageView/0/w/1080/h/9");
}
