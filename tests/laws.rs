use osu_map::hit_objects::HitObject;
use osu_map::info::Color;
use osu_map::key_value::{get_key_value, key_value_line};
use osu_map::num::{parse_decimal, parse_i32, parse_u8, Decimal};
use osu_map::format::{decimal_string, int_string};
use osu_map::sections::{get_sections, is_section_line};
use osu_map::export::export_lines_of;
use osu_map::{import, import_hit_objects, import_timing_points};

fn lines(text: &str) -> Vec<String> {
    text.lines().map(|l| l.to_string()).collect()
}

#[test]
fn header_detection() {
    assert!(is_section_line(&"[General]".to_string()));
    assert!(is_section_line(&"[X]".to_string()));
    assert!(is_section_line(&"[]".to_string()));
    assert!(!is_section_line(&"[General".to_string()));
    assert!(!is_section_line(&"General]".to_string()));
    assert!(!is_section_line(&"[".to_string()));
    assert!(!is_section_line(&"]".to_string()));
    assert!(!is_section_line(&"".to_string()));
}

#[test]
fn key_value_splits_at_first_colon() {
    let p = key_value_line(&"Key:Value:extra".to_string()).unwrap();
    assert_eq!(p.key, "Key");
    assert_eq!(p.value, "Value:extra");
    let p = key_value_line(&"  Title :  A: B  ".to_string()).unwrap();
    assert_eq!(p.key, "Title");
    assert_eq!(p.value, "A: B");
    assert!(key_value_line(&"no colon here".to_string()).is_none());
}

#[test]
fn key_value_later_value_wins() {
    let kv = get_key_value(&lines("A:1\nB:2\nA:3\njunk"));
    assert_eq!(kv.len(), 2);
    assert_eq!(kv[0].key, "A");
    assert_eq!(kv[0].value, "3");
    assert_eq!(kv[1].value, "2");
}

#[test]
fn color_with_two_parts_is_skipped() {
    let b = import(&lines("[Colours]\nCombo1 : 1,2\nCombo2 : 3,4,5\n"));
    assert_eq!(b.info.colors.data, vec![Color(3, 4, 5)]);
}

#[test]
fn color_with_unreadable_channels_is_white() {
    let b = import(&lines("[Colours]\nCombo1 : a,b,c\nCombo2 : 300,-1,7\n"));
    assert_eq!(b.info.colors.data, vec![Color(255, 255, 255), Color(255, 255, 7)]);
}

#[test]
fn malformed_timing_point_is_skipped() {
    let t = import_timing_points(&lines("[TimingPoints]\n100,500,4,2,0,100,1,0\n200\n"));
    assert_eq!(t.data.len(), 1);
    assert_eq!(t.data[0].time, Decimal::new(100, 0));
    let t = import_timing_points(&lines("[TimingPoints]\nabc,500\n300,250.5\n400,x\n"));
    assert_eq!(t.data.len(), 1);
    assert_eq!(t.data[0].time, Decimal::new(300, 0));
    assert_eq!(t.data[0].beat_length, Decimal::new(2505, 1));
    assert_eq!(t.data[0].meter, 4);
    assert_eq!(t.data[0].volume, 100);
    assert_eq!(t.data[0].uninherited, true);
}

#[test]
fn empty_input_gives_defaults() {
    let b = import(&Vec::new());
    assert!(b.timing_points.data.is_empty());
    assert!(b.hit_objects.data.is_empty());
    assert!(b.info.colors.data.is_empty());
    assert_eq!(b.info.general.preview_time, Decimal::new(-1, 0));
    assert_eq!(b.info.general.sample_set, "Normal");
    assert_eq!(b.info.general.countdown, 1);
    assert_eq!(b.info.difficulty.approach_rate, Decimal::new(5, 0));
    assert_eq!(b.info.editor.beat_divisor, 4);
    assert_eq!(b.info.metadata.title, "");
    assert_eq!(b.info.metadata.beatmap_id, -1);
}

#[test]
fn repeated_header_keeps_last_block() {
    let s = get_sections(&lines("junk\n[A]\n1\n\n2\n[B]\nx\n[A]\n3\n"));
    assert_eq!(s.len(), 2);
    assert_eq!(s[0].name, "[A]");
    assert_eq!(s[0].lines, vec!["3".to_string()]);
    assert_eq!(s[1].lines, vec!["x".to_string()]);
    let b = import(&lines("[Metadata]\nTitle: old\nArtist: a\n[Metadata]\nTitle: new\n"));
    assert_eq!(b.info.metadata.title, "new");
    assert_eq!(b.info.metadata.artist, "");
}

#[test]
fn numbers_read_exactly() {
    assert_eq!(parse_i32("-2147483648"), Some(i32::MIN));
    assert_eq!(parse_i32("2147483648"), None);
    assert_eq!(parse_i32("+7"), Some(7));
    assert_eq!(parse_i32(" 7"), None);
    assert_eq!(parse_i32("-"), None);
    assert_eq!(parse_u8("255"), Some(255));
    assert_eq!(parse_u8("256"), None);
    assert_eq!(parse_u8("-1"), None);
    assert_eq!(parse_decimal("-12.50"), Some(Decimal::new(-125, 1)));
    assert_eq!(parse_decimal(".5"), Some(Decimal::new(5, 1)));
    assert_eq!(parse_decimal("3."), Some(Decimal::new(3, 0)));
    assert_eq!(parse_decimal("-69.000"), Some(Decimal::new(-69, 0)));
    assert_eq!(parse_decimal("."), None);
    assert_eq!(parse_decimal("1.2.3"), None);
    assert_eq!(parse_decimal("9223372036854775808"), None);
}

#[test]
fn numbers_written_exactly() {
    assert_eq!(int_string(-305), "-305");
    assert_eq!(int_string(0), "0");
    assert_eq!(decimal_string(Decimal::new(-5, 2)), "-0.05");
    assert_eq!(decimal_string(Decimal::new(33333, 2)), "333.33");
    assert_eq!(decimal_string(Decimal::new(7, 0)), "7");
    assert_eq!(decimal_string(Decimal::new(i64::MIN, 0)), "-9223372036854775808");
}

#[test]
fn round_trip_keeps_values() {
    let text = "[General]\nAudioFilename: a.mp3\nPreviewTime: -1234.5\nLetterboxInBreaks: 1\n\
[Difficulty]\nApproachRate: 9.25\n[TimingPoints]\n-30.5,333.333,3,1,2,70,1,1\n10,-50\n\
[Colours]\nCombo1 : 1,2,3\nCombo2 : 4,5,6\n[HitObjects]\n1,2,3,1,0\n5,6,70,2,2,L|1:2,3,40.5\n\
7,8,90,8,0,100\n9,10,110,128,0,150:0:0\n[Metadata]\nVersion: Hard\n";
    let b = import(&lines(text));
    let again = import(&export_lines_of(&b));
    assert_eq!(again.info.general.audio_filename, b.info.general.audio_filename);
    assert_eq!(again.info.general.preview_time, Decimal::new(-12345, 1));
    assert_eq!(again.info.general.preview_time, b.info.general.preview_time);
    assert_eq!(again.info.general.letter_box_in_breaks, true);
    assert_eq!(again.info.difficulty.approach_rate, b.info.difficulty.approach_rate);
    assert_eq!(again.info.metadata.version, "Hard");
    assert_eq!(again.timing_points.data, b.timing_points.data);
    assert_eq!(again.timing_points.data.len(), 2);
    assert_eq!(again.info.colors.data, b.info.colors.data);
    assert_eq!(again.hit_objects.data.len(), 4);
    let first: Vec<String> = export_lines_of(&b);
    let second: Vec<String> = export_lines_of(&again);
    assert_eq!(first, second);
}

#[test]
fn colors_come_in_key_order() {
    let b = import(&lines("[Colours]\nCombo2:4,5,6\nCombo1:1,2,3\n"));
    assert_eq!(b.info.colors.data, vec![Color(1, 2, 3), Color(4, 5, 6)]);
    let b = import(&lines("[Colours]\nCombo2 : 2,2,2\nCombo10 : 10,10,10\nCombo1 : 1,1,1\n"));
    assert_eq!(b.info.colors.data, vec![Color(1, 1, 1), Color(10, 10, 10), Color(2, 2, 2)]);
}

#[test]
fn hit_object_with_unreadable_hit_sound_is_kept() {
    let h = import_hit_objects(&lines("[HitObjects]\n1,2,3,1,x\n5,6,7,2,0,B|1:1,y\n"));
    assert_eq!(h.data.len(), 2);
    match &h.data[0] {
        HitObject::Circle { base } => assert_eq!(base.hit_sound, 0),
        _ => panic!("expected a circle"),
    }
    match &h.data[1] {
        HitObject::Slider { slides, length, .. } => {
            assert_eq!(*slides, 1);
            assert_eq!(*length, Decimal::new(0, 0));
        }
        _ => panic!("expected a slider"),
    }
}

#[test]
fn ten_colours_keep_their_order_through_export() {
    let mut text = String::from("[Colours]\n");
    for i in 1..=10 {
        text.push_str(&format!("Combo{} : {},0,0\n", i, i));
    }
    let b = import(&lines(&text));
    let out = export_lines_of(&b);
    assert!(out.contains(&"Combo01 : 1,0,0".to_string()));
    assert!(out.contains(&"Combo02 : 10,0,0".to_string()));
    assert!(out.contains(&"Combo10 : 9,0,0".to_string()));
    let again = import(&out);
    assert_eq!(again.info.colors.data, b.info.colors.data);
    let short = import(&lines("[Colours]\nCombo1 : 1,2,3\n"));
    assert!(export_lines_of(&short).contains(&"Combo1 : 1,2,3".to_string()));
}
