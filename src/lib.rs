use vstd::prelude::*;

pub mod text;
pub mod num;
pub mod sections;
pub mod key_value;
pub mod fields;
pub mod info;
pub mod timing;
pub mod hit_objects;
pub mod format;
pub mod export;
pub mod round_trip;

use crate::fields::lines_of;
use crate::hit_objects::{HitObjects, get_hit_objects, hit_lines, hit_objects_are};
use crate::info::{
    Colors, Info, colors_spec, colors_view, difficulty_spec, editor_spec, general_spec,
    get_colors, get_difficulty, get_editor, get_events, get_general, get_metadata, metadata_spec,
};
use crate::key_value::{kv_entries, kv_get, sort_pairs};
use crate::sections::{
    Section, get_sections, is_header, lemma_no_header_no_sections, section_lines, sections_spec,
    sections_view,
};
use crate::text::views;
use crate::timing::{TimingPoints, get_timing_points, timing_points_spec};

verus! {

/// A whole map.
pub struct Beatmap {
    pub info: Info,
    pub timing_points: TimingPoints,
    pub hit_objects: HitObjects,
}

pub type Sections = Seq<(Seq<char>, Seq<Seq<char>>)>;

/// Whether `info` is what the sections `e` say.
pub open spec fn info_spec(info: Info, e: Sections) -> bool {
    &&& general_spec(info.general, kv_entries(section_lines(e, "[General]"@)))
    &&& editor_spec(info.editor, kv_entries(section_lines(e, "[Editor]"@)))
    &&& metadata_spec(info.metadata, kv_entries(section_lines(e, "[Metadata]"@)))
    &&& difficulty_spec(info.difficulty, kv_entries(section_lines(e, "[Difficulty]"@)))
    &&& colors_view(info.colors.data@) == colors_spec(
        sort_pairs(kv_entries(section_lines(e, "[Colours]"@))),
    )
}

/// Whether `b` is what the sections `e` say.
pub open spec fn beatmap_spec(b: Beatmap, e: Sections) -> bool {
    &&& info_spec(b.info, e)
    &&& b.timing_points.data@ == timing_points_spec(section_lines(e, "[TimingPoints]"@))
    &&& hit_objects_are(section_lines(e, "[HitObjects]"@), b.hit_objects.data@)
}

/// Reads everything but the timing points and the hit objects from the sections.
pub fn get_info(data: &Vec<Section>) -> (r: Info)
    ensures
        info_spec(r, sections_view(data@)),
{
    let empty: Vec<String> = Vec::new();
    Info {
        general: get_general(lines_of(data, "[General]", &empty)),
        editor: get_editor(lines_of(data, "[Editor]", &empty)),
        metadata: get_metadata(lines_of(data, "[Metadata]", &empty)),
        difficulty: get_difficulty(lines_of(data, "[Difficulty]", &empty)),
        colors: Colors { data: get_colors(lines_of(data, "[Colours]", &empty)) },
        events: get_events(lines_of(data, "[Events]", &empty)),
    }
}

/// Reads a map from the lines of its text.
pub fn import(lines: &Vec<String>) -> (r: Beatmap)
    ensures
        beatmap_spec(r, sections_spec(views(lines@))),
{
    let data = get_sections(lines);
    let empty: Vec<String> = Vec::new();
    let info = get_info(&data);
    let timing_points = get_timing_points(lines_of(&data, "[TimingPoints]", &empty));
    let hit_objects = get_hit_objects(lines_of(&data, "[HitObjects]", &empty));
    Beatmap { info, timing_points, hit_objects }
}

/// Reads only the general, editor, metadata, difficulty and colour data of a map.
pub fn import_info(lines: &Vec<String>) -> (r: Info)
    ensures
        info_spec(r, sections_spec(views(lines@))),
{
    let data = get_sections(lines);
    get_info(&data)
}

/// Reads only the timing points of a map.
pub fn import_timing_points(lines: &Vec<String>) -> (r: TimingPoints)
    ensures
        r.data@ == timing_points_spec(section_lines(sections_spec(views(lines@)), "[TimingPoints]"@)),
{
    let data = get_sections(lines);
    let empty: Vec<String> = Vec::new();
    get_timing_points(lines_of(&data, "[TimingPoints]", &empty))
}

/// Reads only the hit objects of a map.
pub fn import_hit_objects(lines: &Vec<String>) -> (r: HitObjects)
    ensures
        hit_objects_are(section_lines(sections_spec(views(lines@)), "[HitObjects]"@), r.data@),
{
    let data = get_sections(lines);
    let empty: Vec<String> = Vec::new();
    get_hit_objects(lines_of(&data, "[HitObjects]", &empty))
}

/// Text without a header line, such as an empty text, gives a map with no timing points,
/// hit objects or colours, and every other field at its default.
pub proof fn lemma_no_sections_defaults(lines: Seq<Seq<char>>, b: Beatmap)
    requires
        forall|i: int| 0 <= i < lines.len() ==> !is_header(#[trigger] lines[i]),
        beatmap_spec(b, sections_spec(lines)),
    ensures
        b.timing_points.data@.len() == 0,
        b.hit_objects.data@.len() == 0,
        b.info.colors.data@.len() == 0,
        b.info.general.audio_filename@ == ""@,
        b.info.general.audio_lead_in == 0,
        b.info.general.preview_time.pair() == (-1int, 0int),
        b.info.general.countdown == 1,
        b.info.general.sample_set@ == "Normal"@,
        b.info.general.stack_leniency.pair() == (7int, 1int),
        b.info.general.mode == 0,
        !b.info.general.letter_box_in_breaks,
        !b.info.general.samples_match_playback_rate,
        !b.info.general.widescreen_storyboard,
        b.info.editor.bookmarks@ == ""@,
        b.info.editor.distance_spacing.pair() == (1int, 0int),
        b.info.editor.beat_divisor == 4,
        b.info.editor.grid_size == 4,
        b.info.editor.timeline_zoom.pair() == (1int, 0int),
        b.info.metadata.title@ == ""@,
        b.info.metadata.title_unicode@ == ""@,
        b.info.metadata.artist@ == ""@,
        b.info.metadata.artist_unicode@ == ""@,
        b.info.metadata.creator@ == ""@,
        b.info.metadata.version@ == ""@,
        b.info.metadata.source@ == ""@,
        b.info.metadata.tags@ == ""@,
        b.info.metadata.beatmap_id == -1,
        b.info.metadata.beatmap_set_id == -1,
        b.info.difficulty.hp_drain_rate.pair() == (5int, 0int),
        b.info.difficulty.circle_size.pair() == (5int, 0int),
        b.info.difficulty.overall_difficulty.pair() == (5int, 0int),
        b.info.difficulty.approach_rate.pair() == (5int, 0int),
        b.info.difficulty.slider_multiplier.pair() == (14int, 1int),
        b.info.difficulty.slider_tick_rate.pair() == (1int, 0int),
{
    lemma_no_header_no_sections(lines);
    let e = sections_spec(lines);
    let none = Seq::<Seq<char>>::empty();
    assert(forall|k: Seq<char>| section_lines(e, k) == none);
    assert(kv_entries(none) =~= Seq::empty());
    assert(forall|k: Seq<char>| #[trigger] kv_get(kv_entries(none), k) is None);
    assert(hit_lines(none) =~= Seq::empty());
    assert(colors_view(b.info.colors.data@).len() == b.info.colors.data@.len());
}

} // verus!
