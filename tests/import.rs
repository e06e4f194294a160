use osu_map::export::export_lines_of;
use osu_map::hit_objects::HitObject;
use osu_map::num::Decimal;
use osu_map::{import, import_hit_objects, import_info, import_timing_points};

fn lines(text: &str) -> Vec<String> {
    text.lines().map(|l| l.to_string()).collect()
}

fn as_f64(d: Decimal) -> f64 {
    d.mantissa as f64 / 10f64.powi(d.scale as i32)
}

fn as_f32(d: Decimal) -> f32 {
    d.mantissa as f32 / 10f32.powi(d.scale as i32)
}

const BEATMAP: &str = "osu file format v14

[General]
AudioFilename: audio.mp3
AudioLeadIn: 0
PreviewTime: -69
Countdown: 0
SampleSet: Soft
StackLeniency: 0.7
Mode: 0
LetterboxInBreaks: 0
SamplesMatchPlaybackRate: 1

[Editor]
DistanceSpacing: 1.2
BeatDivisor: 4
GridSize: 32
TimelineZoom: 2.5

[Metadata]
Title:Light a Way
TitleUnicode:Light a Way
Artist:Suzuyu
ArtistUnicode:Suzuyu
Creator:lit120
Version:Future Dreams
Source:
Tags:tag one two
BeatmapID:123
BeatmapSetID:456

[Difficulty]
HPDrainRate:5
CircleSize:4
OverallDifficulty:8
ApproachRate:6.9
SliderMultiplier:1.4
SliderTickRate:1

[Events]
//Background and Video events
0,0,\"bg.jpg\",0,0

[TimingPoints]
999,333.33,4,2,1,60,1,0
1500,-100,4,2,1,60,0,1

[Colours]
Combo1 : 255,128,0
Combo2 : 0,202,0

[HitObjects]
256,192,999,5,0,0:0:0:0:
100,100,1200,2,0,B|200:200|300:100,2,280.5,2|0|0,0:0|0:0|0:0,0:0:0:0:
256,192,2000,12,0,3000,0:0:0:0:
64,192,3500,128,0,4000:0:0:0:0:
";

#[test]
fn import_beatmap() {
    let beatmap = import(&lines(BEATMAP));
    assert_eq!(as_f64(beatmap.info.general.preview_time), -69.0);
    assert_eq!(as_f32(beatmap.info.difficulty.approach_rate), 6.9 as f32);
    assert_eq!(beatmap.info.general.letter_box_in_breaks, false);
    assert_eq!(beatmap.info.general.samples_match_playback_rate, true);
    assert_eq!(as_f64(beatmap.timing_points.data[0].time), 999.0)
}

#[test]
fn import_only_hit_objects() {
    let hit_objects = import_hit_objects(&lines(BEATMAP));
    assert_eq!(hit_objects.data.len(), 4);
    let spinners = lines("[HitObjects]\n256,192,2000,12,0,3000,0:0:0:0:\n256,192,4000,8,0,4500\n");
    let hit_objects = import_hit_objects(&spinners);
    assert_eq!(hit_objects.data.len(), 2);
    assert!(matches!(hit_objects.data[1], HitObject::Spinner { end_time: 4500, .. }));
    let holds = lines("[HitObjects]\n64,192,3500,128,0,4000:0:0:0:0:\n");
    let hit_objects = import_hit_objects(&holds);
    assert!(matches!(hit_objects.data[0], HitObject::Hold { end_time: 4000, .. }));
}

#[test]
fn color_test() {
    let beatmap = import(&lines("[Colours]\nCombo1 : 69,228,13\nCombo2 : 1,2,3\n"));
    let color = beatmap.info.colors.data[0].clone();
    assert_eq!(color.0, 69);
    assert_eq!(color.1, 228);
    assert_eq!(color.2, 13);
}

#[test]
fn open_blank_beatmap() {
    let _beatmap = import(&lines(""));
}

#[test]
fn import_and_export() {
    let mut beatmap = import(&lines(BEATMAP));
    beatmap.info.metadata.version = "exported".to_string();
    let text = export_lines_of(&beatmap);
    let again = import(&text);
    assert_eq!(again.info.metadata.version, "exported");
    assert_eq!(again.info.metadata.title, "Light a Way");
}

#[test]
fn general_fields_read() {
    let beatmap = import(&lines(BEATMAP));
    let g = &beatmap.info.general;
    assert_eq!(g.audio_filename, "audio.mp3");
    assert_eq!(g.sample_set, "Soft");
    assert_eq!(g.stack_leniency, Decimal::new(7, 1));
    assert_eq!(g.countdown, 0);
    assert_eq!(g.widescreen_storyboard, false);
    assert_eq!(beatmap.info.editor.grid_size, 32);
    assert_eq!(beatmap.info.editor.timeline_zoom, Decimal::new(25, 1));
    assert_eq!(beatmap.info.metadata.artist, "Suzuyu");
    assert_eq!(beatmap.info.metadata.source, "");
    assert_eq!(beatmap.info.metadata.beatmap_set_id, 456);
    assert_eq!(beatmap.info.difficulty.slider_multiplier, Decimal::new(14, 1));
}

#[test]
fn timing_points_read_in_order() {
    let tps = import_timing_points(&lines(BEATMAP));
    assert_eq!(tps.data.len(), 2);
    assert_eq!(tps.data[0].beat_length, Decimal::new(33333, 2));
    assert_eq!(tps.data[0].volume, 60);
    assert_eq!(tps.data[0].uninherited, true);
    assert_eq!(tps.data[1].time, Decimal::new(1500, 0));
    assert_eq!(tps.data[1].beat_length, Decimal::new(-100, 0));
    assert_eq!(tps.data[1].uninherited, false);
    assert_eq!(tps.data[1].effects, 1);
}

#[test]
fn hit_object_kinds() {
    let h = import_hit_objects(&lines(BEATMAP));
    assert!(matches!(h.data[0], HitObject::Circle { .. }));
    match &h.data[1] {
        HitObject::Slider { base, curve, slides, length } => {
            assert_eq!(base.x, 100);
            assert_eq!(base.time, 1200);
            assert_eq!(curve, "B|200:200|300:100");
            assert_eq!(*slides, 2);
            assert_eq!(*length, Decimal::new(2805, 1));
        }
        _ => panic!("expected a slider"),
    }
    assert!(matches!(h.data[2], HitObject::Spinner { end_time: 3000, .. }));
    assert!(matches!(h.data[3], HitObject::Hold { end_time: 4000, .. }));
}

#[test]
fn hit_object_lines_that_are_skipped() {
    let h = import_hit_objects(&lines(
        "[HitObjects]\n1,2\n1,2,3,64,0\n1,2,3,8,0\nx,2,3,1,0\n1,2,3,1,0\n",
    ));
    assert_eq!(h.data.len(), 1);
}

#[test]
fn info_alone_matches_full_import() {
    let info = import_info(&lines(BEATMAP));
    assert_eq!(info.metadata.creator, "lit120");
    assert_eq!(info.colors.data.len(), 2);
}
