use vstd::prelude::*;
use crate::fields::{decimal_field, decimal_or, flag_field, flag_or, int_field, int_or, text_field, text_or};
use crate::key_value::{KeyValue, get_key_value, key_order, kv_entries, pairs_view, sort_pairs};
use crate::num::{Decimal, parse_u8, unsigned_spec, within};
use crate::text::{split_on, split_spec, views};

verus! {

/// The `[General]` section.
pub struct General {
    pub audio_filename: String,
    pub audio_lead_in: i32,
    pub preview_time: Decimal,
    pub countdown: i32,
    pub sample_set: String,
    pub stack_leniency: Decimal,
    pub mode: i32,
    pub letter_box_in_breaks: bool,
    pub samples_match_playback_rate: bool,
    pub widescreen_storyboard: bool,
}

/// The `[Editor]` section.
pub struct Editor {
    pub bookmarks: String,
    pub distance_spacing: Decimal,
    pub beat_divisor: i32,
    pub grid_size: i32,
    pub timeline_zoom: Decimal,
}

/// The `[Metadata]` section.
pub struct Metadata {
    pub title: String,
    pub title_unicode: String,
    pub artist: String,
    pub artist_unicode: String,
    pub creator: String,
    pub version: String,
    pub source: String,
    pub tags: String,
    pub beatmap_id: i32,
    pub beatmap_set_id: i32,
}

/// The `[Difficulty]` section.
pub struct Difficulty {
    pub hp_drain_rate: Decimal,
    pub circle_size: Decimal,
    pub overall_difficulty: Decimal,
    pub approach_rate: Decimal,
    pub slider_multiplier: Decimal,
    pub slider_tick_rate: Decimal,
}

/// An RGB colour.
#[derive(Clone, Copy, Debug, PartialEq, Eq, Structural)]
pub struct Color(pub u8, pub u8, pub u8);

/// The `[Colours]` section, in the order of the keys.
pub struct Colors {
    pub data: Vec<Color>,
}

/// The `[Events]` section, which is kept as no data.
#[derive(Clone, Copy, Debug, PartialEq, Eq, Structural)]
pub struct Events {}

/// Everything but the timing points and the hit objects.
pub struct Info {
    pub general: General,
    pub editor: Editor,
    pub metadata: Metadata,
    pub difficulty: Difficulty,
    pub colors: Colors,
    pub events: Events,
}

pub open spec fn general_spec(g: General, e: Seq<(Seq<char>, Seq<char>)>) -> bool {
    &&& g.audio_filename@ == text_or(e, "AudioFilename"@, ""@)
    &&& g.audio_lead_in == int_or(e, "AudioLeadIn"@, 0)
    &&& g.preview_time.pair() == decimal_or(e, "PreviewTime"@, (-1, 0))
    &&& g.countdown == int_or(e, "Countdown"@, 1)
    &&& g.sample_set@ == text_or(e, "SampleSet"@, "Normal"@)
    &&& g.stack_leniency.pair() == decimal_or(e, "StackLeniency"@, (7, 1))
    &&& g.mode == int_or(e, "Mode"@, 0)
    &&& g.letter_box_in_breaks == flag_or(e, "LetterboxInBreaks"@, false)
    &&& g.samples_match_playback_rate == flag_or(e, "SamplesMatchPlaybackRate"@, false)
    &&& g.widescreen_storyboard == flag_or(e, "WidescreenStoryboard"@, false)
}

pub open spec fn editor_spec(g: Editor, e: Seq<(Seq<char>, Seq<char>)>) -> bool {
    &&& g.bookmarks@ == text_or(e, "Bookmarks"@, ""@)
    &&& g.distance_spacing.pair() == decimal_or(e, "DistanceSpacing"@, (1, 0))
    &&& g.beat_divisor == int_or(e, "BeatDivisor"@, 4)
    &&& g.grid_size == int_or(e, "GridSize"@, 4)
    &&& g.timeline_zoom.pair() == decimal_or(e, "TimelineZoom"@, (1, 0))
}

pub open spec fn metadata_spec(g: Metadata, e: Seq<(Seq<char>, Seq<char>)>) -> bool {
    &&& g.title@ == text_or(e, "Title"@, ""@)
    &&& g.title_unicode@ == text_or(e, "TitleUnicode"@, ""@)
    &&& g.artist@ == text_or(e, "Artist"@, ""@)
    &&& g.artist_unicode@ == text_or(e, "ArtistUnicode"@, ""@)
    &&& g.creator@ == text_or(e, "Creator"@, ""@)
    &&& g.version@ == text_or(e, "Version"@, ""@)
    &&& g.source@ == text_or(e, "Source"@, ""@)
    &&& g.tags@ == text_or(e, "Tags"@, ""@)
    &&& g.beatmap_id == int_or(e, "BeatmapID"@, -1)
    &&& g.beatmap_set_id == int_or(e, "BeatmapSetID"@, -1)
}

pub open spec fn difficulty_spec(g: Difficulty, e: Seq<(Seq<char>, Seq<char>)>) -> bool {
    &&& g.hp_drain_rate.pair() == decimal_or(e, "HPDrainRate"@, (5, 0))
    &&& g.circle_size.pair() == decimal_or(e, "CircleSize"@, (5, 0))
    &&& g.overall_difficulty.pair() == decimal_or(e, "OverallDifficulty"@, (5, 0))
    &&& g.approach_rate.pair() == decimal_or(e, "ApproachRate"@, (5, 0))
    &&& g.slider_multiplier.pair() == decimal_or(e, "SliderMultiplier"@, (14, 1))
    &&& g.slider_tick_rate.pair() == decimal_or(e, "SliderTickRate"@, (1, 0))
}

/// Reads the `[General]` lines.
pub fn get_general(section: &Vec<String>) -> (r: General)
    ensures
        general_spec(r, kv_entries(views(section@))),
{
    let p = get_key_value(section);
    General {
        audio_filename: text_field(&p, "AudioFilename", ""),
        audio_lead_in: int_field(&p, "AudioLeadIn", 0),
        preview_time: decimal_field(&p, "PreviewTime", Decimal::new(-1, 0)),
        countdown: int_field(&p, "Countdown", 1),
        sample_set: text_field(&p, "SampleSet", "Normal"),
        stack_leniency: decimal_field(&p, "StackLeniency", Decimal::new(7, 1)),
        mode: int_field(&p, "Mode", 0),
        letter_box_in_breaks: flag_field(&p, "LetterboxInBreaks", false),
        samples_match_playback_rate: flag_field(&p, "SamplesMatchPlaybackRate", false),
        widescreen_storyboard: flag_field(&p, "WidescreenStoryboard", false),
    }
}

/// Reads the `[Editor]` lines.
pub fn get_editor(section: &Vec<String>) -> (r: Editor)
    ensures
        editor_spec(r, kv_entries(views(section@))),
{
    let p = get_key_value(section);
    Editor {
        bookmarks: text_field(&p, "Bookmarks", ""),
        distance_spacing: decimal_field(&p, "DistanceSpacing", Decimal::new(1, 0)),
        beat_divisor: int_field(&p, "BeatDivisor", 4),
        grid_size: int_field(&p, "GridSize", 4),
        timeline_zoom: decimal_field(&p, "TimelineZoom", Decimal::new(1, 0)),
    }
}

/// Reads the `[Metadata]` lines.
pub fn get_metadata(section: &Vec<String>) -> (r: Metadata)
    ensures
        metadata_spec(r, kv_entries(views(section@))),
{
    let p = get_key_value(section);
    Metadata {
        title: text_field(&p, "Title", ""),
        title_unicode: text_field(&p, "TitleUnicode", ""),
        artist: text_field(&p, "Artist", ""),
        artist_unicode: text_field(&p, "ArtistUnicode", ""),
        creator: text_field(&p, "Creator", ""),
        version: text_field(&p, "Version", ""),
        source: text_field(&p, "Source", ""),
        tags: text_field(&p, "Tags", ""),
        beatmap_id: int_field(&p, "BeatmapID", -1),
        beatmap_set_id: int_field(&p, "BeatmapSetID", -1),
    }
}

/// Reads the `[Difficulty]` lines.
pub fn get_difficulty(section: &Vec<String>) -> (r: Difficulty)
    ensures
        difficulty_spec(r, kv_entries(views(section@))),
{
    let p = get_key_value(section);
    Difficulty {
        hp_drain_rate: decimal_field(&p, "HPDrainRate", Decimal::new(5, 0)),
        circle_size: decimal_field(&p, "CircleSize", Decimal::new(5, 0)),
        overall_difficulty: decimal_field(&p, "OverallDifficulty", Decimal::new(5, 0)),
        approach_rate: decimal_field(&p, "ApproachRate", Decimal::new(5, 0)),
        slider_multiplier: decimal_field(&p, "SliderMultiplier", Decimal::new(14, 1)),
        slider_tick_rate: decimal_field(&p, "SliderTickRate", Decimal::new(1, 0)),
    }
}

/// A colour channel: a byte, or 255 where the text is not one.
pub open spec fn channel(p: Seq<char>) -> int {
    match within(unsigned_spec(p), 0, 255) {
        Some(x) => x,
        None => 255,
    }
}

/// The colour that `R,G,B` gives; none where there are not three parts.
pub open spec fn color_of(v: Seq<char>) -> Option<(int, int, int)> {
    let parts = split_spec(v, ',');
    if parts.len() == 3 {
        Some((channel(parts[0]), channel(parts[1]), channel(parts[2])))
    } else {
        None
    }
}

/// The colours of the pairs, in their order.
pub open spec fn colors_spec(e: Seq<(Seq<char>, Seq<char>)>) -> Seq<(int, int, int)>
    decreases e.len(),
{
    if e.len() == 0 {
        Seq::empty()
    } else {
        match color_of(e.last().1) {
            Some(c) => colors_spec(e.drop_last()).push(c),
            None => colors_spec(e.drop_last()),
        }
    }
}

pub open spec fn triple(c: Color) -> (int, int, int) {
    (c.0 as int, c.1 as int, c.2 as int)
}

pub open spec fn colors_view(v: Seq<Color>) -> Seq<(int, int, int)> {
    v.map_values(|c: Color| triple(c))
}

fn read_channel(p: &String) -> (r: u8)
    ensures
        r as int == channel(p@),
{
    match parse_u8(p.as_str()) {
        Some(x) => x,
        None => 255,
    }
}

/// Reads the `[Colours]` lines: each value `R,G,B` gives a colour, in the order of the
/// keys, a channel that is not a byte reads as 255, and a value without exactly three
/// parts is skipped.
pub fn get_colors(section: &Vec<String>) -> (r: Vec<Color>)
    ensures
        colors_view(r@) == colors_spec(sort_pairs(kv_entries(views(section@)))),
{
    let pairs = get_key_value(section);
    let order = key_order(&pairs);
    let ghost e = order@.map_values(|i: usize| pairs_view(pairs@)[i as int]);
    let mut colors: Vec<Color> = Vec::new();
    let mut i: usize = 0;
    assert(e.take(0) =~= Seq::empty());
    assert(colors_view(colors@) =~= Seq::empty());
    while i < order.len()
        invariant
            i <= order.len(),
            e == order@.map_values(|i: usize| pairs_view(pairs@)[i as int]),
            forall|j: int| 0 <= j < order.len() ==> #[trigger] order@[j] < pairs.len(),
            colors_view(colors@) == colors_spec(e.take(i as int)),
        decreases order.len() - i,
    {
        let k = order[i];
        assert(order@[i as int] < pairs.len());
        assert(e.take(i + 1).drop_last() =~= e.take(i as int));
        assert(e.take(i + 1).last() == pairs@[k as int].pair());
        let parts = split_on(pairs[k].value.as_str(), ',');
        if parts.len() == 3 {
            let c = Color(read_channel(&parts[0]), read_channel(&parts[1]), read_channel(&parts[2]));
            let ghost before = colors@;
            colors.push(c);
            assert(colors_view(colors@) =~= colors_view(before).push(triple(c)));
        }
        i = i + 1;
    }
    assert(e.take(order.len() as int) =~= e);
    colors
}

/// The `[Events]` section holds nothing that is kept.
pub fn get_events(_section: &Vec<String>) -> (r: Events)
    ensures
        r == (Events {}),
{
    Events {}
}

} // verus!
