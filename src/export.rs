use vstd::prelude::*;
use vstd::string::StringExecFns;
use crate::format::{decimal_string, decimal_text, digits_of, digit_count, flag_string, flag_text, int_string, int_text, padded, padded_string};
use crate::hit_objects::{HitBase, HitObject};
use crate::info::{Color, Difficulty, Editor, General, Metadata};
use crate::num::Decimal;
use crate::text::views;
use crate::timing::TimingPoint;
use crate::Beatmap;

verus! {

/// A `Key: Value` line.
pub open spec fn kv_text(k: Seq<char>, v: Seq<char>) -> Seq<char> {
    k + ": "@ + v
}

pub open spec fn general_lines(g: General) -> Seq<Seq<char>> {
    seq![
        "[General]"@,
        kv_text("AudioFilename"@, g.audio_filename@),
        kv_text("AudioLeadIn"@, int_text(g.audio_lead_in as int)),
        kv_text("PreviewTime"@, decimal_text(g.preview_time)),
        kv_text("Countdown"@, int_text(g.countdown as int)),
        kv_text("SampleSet"@, g.sample_set@),
        kv_text("StackLeniency"@, decimal_text(g.stack_leniency)),
        kv_text("Mode"@, int_text(g.mode as int)),
        kv_text("LetterboxInBreaks"@, flag_text(g.letter_box_in_breaks)),
        kv_text("SamplesMatchPlaybackRate"@, flag_text(g.samples_match_playback_rate)),
        kv_text("WidescreenStoryboard"@, flag_text(g.widescreen_storyboard)),
    ]
}

pub open spec fn editor_lines(g: Editor) -> Seq<Seq<char>> {
    seq![
        "[Editor]"@,
        kv_text("Bookmarks"@, g.bookmarks@),
        kv_text("DistanceSpacing"@, decimal_text(g.distance_spacing)),
        kv_text("BeatDivisor"@, int_text(g.beat_divisor as int)),
        kv_text("GridSize"@, int_text(g.grid_size as int)),
        kv_text("TimelineZoom"@, decimal_text(g.timeline_zoom)),
    ]
}

pub open spec fn metadata_lines(g: Metadata) -> Seq<Seq<char>> {
    seq![
        "[Metadata]"@,
        kv_text("Title"@, g.title@),
        kv_text("TitleUnicode"@, g.title_unicode@),
        kv_text("Artist"@, g.artist@),
        kv_text("ArtistUnicode"@, g.artist_unicode@),
        kv_text("Creator"@, g.creator@),
        kv_text("Version"@, g.version@),
        kv_text("Source"@, g.source@),
        kv_text("Tags"@, g.tags@),
        kv_text("BeatmapID"@, int_text(g.beatmap_id as int)),
        kv_text("BeatmapSetID"@, int_text(g.beatmap_set_id as int)),
    ]
}

pub open spec fn difficulty_lines(g: Difficulty) -> Seq<Seq<char>> {
    seq![
        "[Difficulty]"@,
        kv_text("HPDrainRate"@, decimal_text(g.hp_drain_rate)),
        kv_text("CircleSize"@, decimal_text(g.circle_size)),
        kv_text("OverallDifficulty"@, decimal_text(g.overall_difficulty)),
        kv_text("ApproachRate"@, decimal_text(g.approach_rate)),
        kv_text("SliderMultiplier"@, decimal_text(g.slider_multiplier)),
        kv_text("SliderTickRate"@, decimal_text(g.slider_tick_rate)),
    ]
}

/// `R,G,B`.
pub open spec fn color_text(c: Color) -> Seq<char> {
    int_text(c.0 as int) + seq![','] + int_text(c.1 as int) + seq![','] + int_text(c.2 as int)
}

/// The number of digits of the colour keys when there are `n` colours.
pub open spec fn key_width(n: nat) -> nat {
    digits_of(n).len()
}

/// `ComboN : R,G,B` for each colour, numbered from 1, with `N` written in `w` digits.
pub open spec fn color_lines_w(v: Seq<Color>, w: nat) -> Seq<Seq<char>>
    decreases v.len(),
{
    if v.len() == 0 {
        Seq::empty()
    } else {
        color_lines_w(v.drop_last(), w).push(
            "Combo"@ + padded(v.len(), w) + " : "@ + color_text(v.last()),
        )
    }
}

/// The colour lines, their numbers padded with zeros to the width of the largest, so that
/// the keys sort in the order of the colours (`Combo01` .. `Combo10`).
pub open spec fn color_lines(v: Seq<Color>) -> Seq<Seq<char>> {
    color_lines_w(v, key_width(v.len()))
}

pub open spec fn timing_text(t: TimingPoint) -> Seq<char> {
    decimal_text(t.time) + seq![','] + decimal_text(t.beat_length) + seq![','] + int_text(
        t.meter as int,
    ) + seq![','] + int_text(t.sample_set as int) + seq![','] + int_text(t.sample_index as int)
        + seq![','] + int_text(t.volume as int) + seq![','] + flag_text(t.uninherited) + seq![',']
        + int_text(t.effects as int)
}

pub open spec fn base_text(b: HitBase) -> Seq<char> {
    int_text(b.x as int) + seq![','] + int_text(b.y as int) + seq![','] + int_text(b.time as int)
        + seq![','] + int_text(b.kind as int) + seq![','] + int_text(b.hit_sound as int)
}

pub open spec fn hit_text(h: HitObject) -> Seq<char> {
    match h {
        HitObject::Circle { base } => base_text(base),
        HitObject::Slider { base, curve, slides, length } => base_text(base) + seq![','] + curve@
            + seq![','] + int_text(slides as int) + seq![','] + decimal_text(length),
        HitObject::Spinner { base, end_time } => base_text(base) + seq![','] + int_text(
            end_time as int,
        ),
        HitObject::Hold { base, end_time } => base_text(base) + seq![','] + int_text(
            end_time as int,
        ),
    }
}

/// The text of a map, line by line, with its sections in a fixed order.
pub open spec fn export_lines(b: Beatmap) -> Seq<Seq<char>> {
    seq!["osu file format v14"@] + general_lines(b.info.general) + editor_lines(b.info.editor)
        + metadata_lines(b.info.metadata) + difficulty_lines(b.info.difficulty) + seq![
        "[Events]"@,
        "[TimingPoints]"@,
    ] + b.timing_points.data@.map_values(|t: TimingPoint| timing_text(t)) + seq!["[Colours]"@]
        + color_lines(b.info.colors.data@) + seq!["[HitObjects]"@]
        + b.hit_objects.data@.map_values(|h: HitObject| hit_text(h))
}

fn put(out: &mut Vec<String>, s: String)
    ensures
        views(final(out)@) == views(old(out)@).push(s@),
{
    let ghost before = out@;
    out.push(s);
    assert(views(out@) =~= views(before).push(s@));
}

fn kv_string(key: &str, v: &String) -> (r: String)
    ensures
        r@ == kv_text(key@, v@),
{
    let mut r = String::from_str(key);
    r.append(": ");
    r.append(v.as_str());
    r
}

fn put_general(out: &mut Vec<String>, g: &General)
    ensures
        views(final(out)@) == views(old(out)@) + general_lines(*g),
{
    put(out, String::from_str("[General]"));
    put(out, kv_string("AudioFilename", &g.audio_filename));
    put(out, kv_string("AudioLeadIn", &int_string(g.audio_lead_in as i64)));
    put(out, kv_string("PreviewTime", &decimal_string(g.preview_time)));
    put(out, kv_string("Countdown", &int_string(g.countdown as i64)));
    put(out, kv_string("SampleSet", &g.sample_set));
    put(out, kv_string("StackLeniency", &decimal_string(g.stack_leniency)));
    put(out, kv_string("Mode", &int_string(g.mode as i64)));
    put(out, kv_string("LetterboxInBreaks", &flag_string(g.letter_box_in_breaks)));
    put(out, kv_string("SamplesMatchPlaybackRate", &flag_string(g.samples_match_playback_rate)));
    put(out, kv_string("WidescreenStoryboard", &flag_string(g.widescreen_storyboard)));
    assert(views(out@) =~= views(old(out)@) + general_lines(*g));
}

fn put_editor(out: &mut Vec<String>, g: &Editor)
    ensures
        views(final(out)@) == views(old(out)@) + editor_lines(*g),
{
    put(out, String::from_str("[Editor]"));
    put(out, kv_string("Bookmarks", &g.bookmarks));
    put(out, kv_string("DistanceSpacing", &decimal_string(g.distance_spacing)));
    put(out, kv_string("BeatDivisor", &int_string(g.beat_divisor as i64)));
    put(out, kv_string("GridSize", &int_string(g.grid_size as i64)));
    put(out, kv_string("TimelineZoom", &decimal_string(g.timeline_zoom)));
    assert(views(out@) =~= views(old(out)@) + editor_lines(*g));
}

fn put_metadata(out: &mut Vec<String>, g: &Metadata)
    ensures
        views(final(out)@) == views(old(out)@) + metadata_lines(*g),
{
    put(out, String::from_str("[Metadata]"));
    put(out, kv_string("Title", &g.title));
    put(out, kv_string("TitleUnicode", &g.title_unicode));
    put(out, kv_string("Artist", &g.artist));
    put(out, kv_string("ArtistUnicode", &g.artist_unicode));
    put(out, kv_string("Creator", &g.creator));
    put(out, kv_string("Version", &g.version));
    put(out, kv_string("Source", &g.source));
    put(out, kv_string("Tags", &g.tags));
    put(out, kv_string("BeatmapID", &int_string(g.beatmap_id as i64)));
    put(out, kv_string("BeatmapSetID", &int_string(g.beatmap_set_id as i64)));
    assert(views(out@) =~= views(old(out)@) + metadata_lines(*g));
}

fn put_difficulty(out: &mut Vec<String>, g: &Difficulty)
    ensures
        views(final(out)@) == views(old(out)@) + difficulty_lines(*g),
{
    put(out, String::from_str("[Difficulty]"));
    put(out, kv_string("HPDrainRate", &decimal_string(g.hp_drain_rate)));
    put(out, kv_string("CircleSize", &decimal_string(g.circle_size)));
    put(out, kv_string("OverallDifficulty", &decimal_string(g.overall_difficulty)));
    put(out, kv_string("ApproachRate", &decimal_string(g.approach_rate)));
    put(out, kv_string("SliderMultiplier", &decimal_string(g.slider_multiplier)));
    put(out, kv_string("SliderTickRate", &decimal_string(g.slider_tick_rate)));
    assert(views(out@) =~= views(old(out)@) + difficulty_lines(*g));
}

/// `R,G,B` as text.
pub fn color_string(c: Color) -> (r: String)
    ensures
        r@ == color_text(c),
{
    proof {
        reveal_strlit(",");
    }
    let mut r = int_string(c.0 as i64);
    r.append(",");
    r.append(int_string(c.1 as i64).as_str());
    r.append(",");
    r.append(int_string(c.2 as i64).as_str());
    assert(r@ =~= color_text(c));
    r
}

/// A timing point as a line of text.
pub fn timing_string(t: &TimingPoint) -> (r: String)
    ensures
        r@ == timing_text(*t),
{
    proof {
        reveal_strlit(",");
    }
    let mut r = decimal_string(t.time);
    r.append(",");
    r.append(decimal_string(t.beat_length).as_str());
    r.append(",");
    r.append(int_string(t.meter as i64).as_str());
    r.append(",");
    r.append(int_string(t.sample_set as i64).as_str());
    r.append(",");
    r.append(int_string(t.sample_index as i64).as_str());
    r.append(",");
    r.append(int_string(t.volume as i64).as_str());
    r.append(",");
    r.append(flag_string(t.uninherited).as_str());
    r.append(",");
    r.append(int_string(t.effects as i64).as_str());
    assert(r@ =~= timing_text(*t));
    r
}

fn base_string(b: &HitBase) -> (r: String)
    ensures
        r@ == base_text(*b),
{
    proof {
        reveal_strlit(",");
    }
    let mut r = int_string(b.x as i64);
    r.append(",");
    r.append(int_string(b.y as i64).as_str());
    r.append(",");
    r.append(int_string(b.time as i64).as_str());
    r.append(",");
    r.append(int_string(b.kind as i64).as_str());
    r.append(",");
    r.append(int_string(b.hit_sound as i64).as_str());
    assert(r@ =~= base_text(*b));
    r
}

/// A hit object as a line of text.
pub fn hit_string(h: &HitObject) -> (r: String)
    ensures
        r@ == hit_text(*h),
{
    proof {
        reveal_strlit(",");
    }
    match h {
        HitObject::Circle { base } => base_string(base),
        HitObject::Slider { base, curve, slides, length } => {
            let mut r = base_string(base);
            r.append(",");
            r.append(curve.as_str());
            r.append(",");
            r.append(int_string(*slides as i64).as_str());
            r.append(",");
            r.append(decimal_string(*length).as_str());
            assert(r@ =~= hit_text(*h));
            r
        },
        HitObject::Spinner { base, end_time } | HitObject::Hold { base, end_time } => {
            let mut r = base_string(base);
            r.append(",");
            r.append(int_string(*end_time as i64).as_str());
            assert(r@ =~= hit_text(*h));
            r
        },
    }
}

/// The text of a map, line by line: a format line, then the sections General, Editor,
/// Metadata, Difficulty, Events, TimingPoints, Colours and HitObjects.
pub fn export_lines_of(b: &Beatmap) -> (r: Vec<String>)
    ensures
        views(r@) == export_lines(*b),
{
    let mut out: Vec<String> = Vec::new();
    assert(views(out@) =~= Seq::empty());
    put(&mut out, String::from_str("osu file format v14"));
    put_general(&mut out, &b.info.general);
    put_editor(&mut out, &b.info.editor);
    put_metadata(&mut out, &b.info.metadata);
    put_difficulty(&mut out, &b.info.difficulty);
    put(&mut out, String::from_str("[Events]"));
    put(&mut out, String::from_str("[TimingPoints]"));
    let ghost head = views(out@);
    let tps = &b.timing_points.data;
    let mut i: usize = 0;
    while i < tps.len()
        invariant
            i <= tps.len(),
            views(out@) == head + tps@.take(i as int).map_values(|t: TimingPoint| timing_text(t)),
        decreases tps.len() - i,
    {
        put(&mut out, timing_string(&tps[i]));
        assert(tps@.take(i + 1).map_values(|t: TimingPoint| timing_text(t)) =~= tps@.take(
            i as int,
        ).map_values(|t: TimingPoint| timing_text(t)).push(timing_text(tps@[i as int])));
        i = i + 1;
    }
    assert(tps@.take(tps.len() as int) =~= tps@);
    put(&mut out, String::from_str("[Colours]"));
    let ghost head = views(out@);
    let cs = &b.info.colors.data;
    let w = digit_count(cs.len() as u64);
    let mut i: usize = 0;
    assert(cs@.take(0) =~= Seq::empty());
    while i < cs.len()
        invariant
            i <= cs.len(),
            w as nat == key_width(cs@.len()),
            views(out@) == head + color_lines_w(cs@.take(i as int), w as nat),
        decreases cs.len() - i,
    {
        let mut line = String::from_str("Combo");
        line.append(padded_string((i + 1) as u64, w).as_str());
        line.append(" : ");
        line.append(color_string(cs[i]).as_str());
        assert(cs@.take(i + 1).drop_last() =~= cs@.take(i as int));
        assert(line@ =~= "Combo"@ + padded((i + 1) as nat, w as nat) + " : "@ + color_text(cs@[i as int]));
        put(&mut out, line);
        i = i + 1;
    }
    assert(cs@.take(cs.len() as int) =~= cs@);
    put(&mut out, String::from_str("[HitObjects]"));
    let ghost head = views(out@);
    let hs = &b.hit_objects.data;
    let mut i: usize = 0;
    while i < hs.len()
        invariant
            i <= hs.len(),
            views(out@) == head + hs@.take(i as int).map_values(|h: HitObject| hit_text(h)),
        decreases hs.len() - i,
    {
        put(&mut out, hit_string(&hs[i]));
        assert(hs@.take(i + 1).map_values(|h: HitObject| hit_text(h)) =~= hs@.take(
            i as int,
        ).map_values(|h: HitObject| hit_text(h)).push(hit_text(hs@[i as int])));
        i = i + 1;
    }
    assert(hs@.take(hs.len() as int) =~= hs@);
    assert(views(out@) =~= export_lines(*b));
    out
}

} // verus!
