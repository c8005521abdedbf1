use rtracker::curve::Curve;
use rtracker::mixer::render_with_bank;
use rtracker::rerender::EditPlan;
use rtracker::sample::SampleBank;
use rtracker::session::splice;
use rtracker::cells::{blank, clear_row, cut_rows, find_cell, set_note, shorten};
use rtracker::editor::{Action, Editor, Key, Message, PlayScope, StatusKind};
use rtracker::note::{format_note, is_note_letter, Note};
use rtracker::pattern::{Cell, Pattern, PatternError, PatternMetadata, Track};
use rtracker::piece::{Envelope, SampleLoopMode, SampleRef, VoiceDef};
use rtracker::session::spr_at;
use rtracker::single::Single;
use rtracker::song::{Song, SongMetadata};
use rtracker::table::Table;
use rtracker::view::{amp_level, center, format_cell, scope_points, short, CellText, Ground};

fn s(x: f32) -> Single {
    Single::of_bits(x.to_bits())
}

fn f(x: Single) -> f32 {
    f32::from_bits(x.bits)
}

fn cell(row: u32, name: &str) -> Cell {
    Cell {
        row,
        note: Note::Name(name.to_string()),
        velocity: None,
        duration_rows: None,
        pitch_ratio: None,
        pan: None,
        fx: vec![],
        pitch_env: None,
    }
}

fn track(name: &str, cells: Vec<Cell>) -> Track {
    Track {
        name: name.to_string(),
        instrument: None,
        voice: Some("v".to_string()),
        default_amp: Some(s(0.5)),
        default_pan: None,
        default_envelope: Some(Envelope::Gate),
        default_fx: None,
        default_duration_rows: Some(s(1.0)),
        default_pitch_env: None,
        cells,
    }
}

fn pattern(rows: u32, tracks: Vec<Track>) -> Pattern {
    let mut voices = Table::new();
    voices.insert("v".to_string(), VoiceDef::Sine { default_pan: s(0.0) });
    Pattern {
        sample_rate: 48000,
        tempo_bpm: s(120.0),
        lines_per_beat: 4,
        rows,
        voices,
        samples: Table::new(),
        tracks,
        metadata: PatternMetadata::default(),
    }
}

fn editor(patterns: Vec<Pattern>) -> Editor {
    let as_song = patterns.len() > 1;
    Editor::new(Song { patterns, metadata: SongMetadata::default() }, as_song, Some(1))
}

fn two() -> Editor {
    editor(vec![
        pattern(16, vec![track("kick", vec![cell(0, "C-3")]), track("snare", vec![])]),
        pattern(8, vec![track("kick", vec![])]),
    ])
}

fn press(e: &mut Editor, c: char) -> Vec<Action> {
    e.handle_key(Key::Char(c), false, 7)
}

fn status(e: &Editor) -> (String, StatusKind) {
    match &e.status {
        None => ("".to_string(), StatusKind::Info),
        Some(x) => match &x.message {
            Message::Text(t) => (t.clone(), x.kind),
            Message::Tempo(t) => (format!("{:.0} BPM", f(*t)), x.kind),
        },
    }
}

fn names(t: &Track) -> Vec<(u32, String)> {
    t.cells
        .iter()
        .map(|c| match &c.note {
            Note::Name(n) => (c.row, n.clone()),
            Note::Hz(h) => (c.row, format!("{}", f(*h))),
        })
        .collect()
}

#[test]
fn an_editor_starts_at_the_top() {
    let e = two();
    assert_eq!((e.current, e.cursor_row, e.cursor_track, e.octave), (0, 0, 0, 3));
    assert_eq!(e.play_scope, PlayScope::Song);
    assert!(e.follow_playhead && !e.dirty && e.loaded_as_song);
    let e = editor(vec![pattern(4, vec![])]);
    assert_eq!(e.play_scope, PlayScope::Pattern);
    assert_eq!(e.cur().rows, 4);
}

#[test]
fn keys_of_transport() {
    let mut e = two();
    assert_eq!(press(&mut e, 'q'), vec![Action::Quit]);
    assert_eq!(e.handle_key(Key::Esc, false, 0), vec![Action::Quit]);
    assert_eq!(e.handle_key(Key::Char('c'), true, 0), vec![Action::Quit]);
    assert_eq!(press(&mut e, ' '), vec![Action::TogglePause]);
    assert_eq!(press(&mut e, 'R'), vec![Action::Rewind]);
    assert_eq!(e.handle_key(Key::Char('r'), true, 0), vec![Action::Rewind]);
    assert_eq!(press(&mut e, 'r'), vec![]);
    assert_eq!(press(&mut e, 's'), vec![Action::Save]);
    assert_eq!(e.handle_key(Key::Other, false, 0), vec![]);
    assert!(e.status.is_none());
}

#[test]
fn scope_twice_is_as_before() {
    let mut e = two();
    assert_eq!(press(&mut e, 'm'), vec![Action::Rewind, Action::Render]);
    assert_eq!(e.play_scope, PlayScope::Pattern);
    assert_eq!(status(&e), ("scope: pattern loop".to_string(), StatusKind::Info));
    press(&mut e, 'm');
    assert_eq!(e.play_scope, PlayScope::Song);
    assert_eq!(status(&e).0, "scope: whole song");
}

#[test]
fn selecting_wraps_and_comes_back() {
    let mut e = two();
    e.cursor_row = 12;
    e.cursor_track = 1;
    assert_eq!(press(&mut e, ']'), vec![]);
    assert_eq!((e.current, e.cursor_row, e.cursor_track), (1, 7, 0));
    assert!(!e.follow_playhead);
    assert_eq!(status(&e).0, "pattern 01");
    press(&mut e, ']');
    assert_eq!(e.current, 0);
    press(&mut e, '[');
    assert_eq!(e.current, 1);
    e.play_scope = PlayScope::Pattern;
    assert_eq!(press(&mut e, '['), vec![Action::Rewind, Action::Render]);
    // a single pattern stays selected, and nothing is said
    let mut e = editor(vec![pattern(4, vec![])]);
    assert_eq!(press(&mut e, ']'), vec![]);
    assert!(e.follow_playhead && e.status.is_none());
}

#[test]
fn patterns_are_added_and_deleted() {
    let mut e = two();
    assert_eq!(press(&mut e, 'N'), vec![Action::Rewind, Action::Render]);
    assert_eq!((e.song.patterns.len(), e.current, e.dirty), (3, 1, true));
    assert_eq!(names(&e.cur().tracks[0]), vec![(0, "C-3".to_string())]);
    assert_eq!(status(&e), ("cloned pattern".to_string(), StatusKind::Done));
    press(&mut e, 'n');
    assert_eq!((e.song.patterns.len(), e.current), (4, 2));
    assert_eq!(e.cur().tracks.len(), 2);
    assert!(e.cur().tracks.iter().all(|t| t.cells.is_empty()));
    assert_eq!(status(&e).0, "new pattern");
    press(&mut e, 'x');
    assert_eq!((e.song.patterns.len(), e.current), (3, 2));
    assert_eq!(status(&e), ("deleted pattern".to_string(), StatusKind::Info));
    press(&mut e, 'x');
    press(&mut e, 'x');
    assert_eq!((e.song.patterns.len(), e.current), (1, 0));
    assert_eq!(press(&mut e, 'x'), vec![]);
    assert_eq!(e.song.patterns.len(), 1);
    assert_eq!(status(&e), ("can't delete the last pattern".to_string(), StatusKind::Warn));
}

#[test]
fn moving_there_and_back() {
    let mut e = two();
    assert_eq!(e.handle_key(Key::Left, true, 0), vec![]);
    assert_eq!(e.handle_key(Key::Right, true, 0), vec![Action::Rewind, Action::Render]);
    assert_eq!((e.current, e.song.patterns[0].rows, e.song.patterns[1].rows), (1, 8, 16));
    assert_eq!(status(&e).0, "moved \u{2192} 01");
    e.handle_key(Key::Left, true, 0);
    assert_eq!((e.current, e.song.patterns[0].rows), (0, 16));
}

#[test]
fn length_goes_by_beats() {
    let mut e = editor(vec![pattern(8, vec![track("a", vec![cell(3, "C-1"), cell(4, "C-2"), cell(7, "C-3")])])]);
    e.cursor_row = 7;
    assert_eq!(press(&mut e, '-'), vec![Action::Rewind, Action::Render]);
    assert_eq!((e.cur().rows, e.cursor_row), (4, 3));
    assert_eq!(names(&e.cur().tracks[0]), vec![(3, "C-1".to_string())]);
    assert_eq!(status(&e).0, "rows 4");
    press(&mut e, '_');
    assert_eq!(e.cur().rows, 4);
    press(&mut e, '=');
    press(&mut e, '+');
    assert_eq!(e.cur().rows, 12);
}

#[test]
fn tempo_stays_in_range() {
    let mut e = two();
    press(&mut e, '.');
    assert_eq!((f(e.cur().tempo_bpm), status(&e).0), (121.0, "121 BPM".to_string()));
    press(&mut e, ',');
    press(&mut e, '<');
    assert_eq!(f(e.cur().tempo_bpm), 110.0);
    for _ in 0..20 {
        press(&mut e, '<');
    }
    assert_eq!(f(e.cur().tempo_bpm), 20.0);
    for _ in 0..200 {
        press(&mut e, '>');
    }
    assert_eq!(f(e.cur().tempo_bpm), 999.0);
}

#[test]
fn the_cursor_wraps() {
    let mut e = two();
    e.handle_key(Key::Up, false, 0);
    assert_eq!((e.cursor_row, e.follow_playhead), (15, false));
    e.handle_key(Key::Down, false, 0);
    assert_eq!(e.cursor_row, 0);
    e.handle_key(Key::PageDown, false, 0);
    assert_eq!(e.cursor_row, 4);
    e.handle_key(Key::PageUp, false, 0);
    e.handle_key(Key::PageUp, false, 0);
    assert_eq!(e.cursor_row, 12);
    e.handle_key(Key::Home, false, 0);
    assert_eq!(e.cursor_row, 0);
    e.handle_key(Key::End, false, 0);
    assert_eq!(e.cursor_row, 15);
    e.handle_key(Key::Left, false, 0);
    assert_eq!(e.cursor_track, 1);
    e.handle_key(Key::Tab, false, 0);
    assert_eq!(e.cursor_track, 0);
    e.handle_key(Key::BackTab, false, 0);
    e.handle_key(Key::Right, false, 0);
    assert_eq!(e.cursor_track, 0);
}

#[test]
fn the_view_scrolls_with_the_cursor() {
    let mut e = editor(vec![pattern(64, vec![track("a", vec![])])]);
    e.handle_key(Key::Up, false, 0);
    assert_eq!((e.cursor_row, e.scroll), (63, 48));
    e.handle_key(Key::Down, false, 0);
    assert_eq!((e.cursor_row, e.scroll), (0, 0));
    for _ in 0..16 {
        e.handle_key(Key::Down, false, 0);
    }
    assert_eq!((e.cursor_row, e.scroll), (16, 1));
}

#[test]
fn an_entered_note_is_found() {
    let mut e = two();
    press(&mut e, '5');
    assert_eq!((e.octave, status(&e).0), (5, "octave 5".to_string()));
    e.cursor_row = 2;
    assert_eq!(press(&mut e, 'A'), vec![Action::RenderEdit, Action::Preview(2)]);
    assert_eq!(names(&e.cur().tracks[0]), vec![(0, "C-3".to_string()), (2, "A#5".to_string())]);
    assert_eq!((e.cursor_row, e.dirty, status(&e).0), (3, true, "set A#5".to_string()));
    e.cursor_row = 0;
    press(&mut e, 'g');
    assert_eq!(names(&e.cur().tracks[0])[0], (0, "G-5".to_string()));
    assert_eq!(e.handle_key(Key::Enter, false, 0), vec![Action::Preview(1)]);
}

#[test]
fn follow_takes_the_letter_f() {
    let mut e = two();
    assert_eq!(press(&mut e, 'f'), vec![]);
    assert_eq!((e.follow_playhead, status(&e).0), (false, "follow off".to_string()));
    press(&mut e, 'f');
    assert_eq!((e.follow_playhead, status(&e).0), (true, "follow on".to_string()));
    // its sharp is still a note
    press(&mut e, 'F');
    assert_eq!(names(&e.cur().tracks[0])[0], (0, "F#3".to_string()));
}

#[test]
fn clearing_takes_every_note_of_a_row() {
    let mut e = two();
    assert_eq!(e.handle_key(Key::Delete, false, 0), vec![Action::RenderEdit]);
    assert_eq!((e.cur().tracks[0].cells.len(), e.dirty, status(&e).0), (0, true, "cleared".to_string()));
    e.status = None;
    assert_eq!(e.handle_key(Key::Backspace, false, 0), vec![]);
    assert!(e.status.is_none());
}

#[test]
fn a_pattern_without_tracks_takes_no_notes() {
    let mut e = editor(vec![pattern(0, vec![])]);
    press(&mut e, 'a');
    e.handle_key(Key::Delete, false, 0);
    e.handle_key(Key::Down, false, 0);
    e.handle_key(Key::Right, false, 0);
    assert_eq!((e.cursor_row, e.cursor_track), (0, 0));
    assert!(e.cur().tracks.is_empty());
}

#[test]
fn cells_keep_their_order() {
    let mut cells = vec![cell(4, "a"), cell(8, "b")];
    set_note(&mut cells, 6, Note::Name("x".to_string()));
    set_note(&mut cells, 8, Note::Name("y".to_string()));
    let rows: Vec<u32> = cells.iter().map(|c| c.row).collect();
    assert_eq!(rows, vec![4, 6, 8]);
    assert_eq!(find_cell(&cells, 8), Some(2));
    assert_eq!(find_cell(&cells, 5), None);
    assert!(clear_row(&mut cells, 6));
    assert!(!clear_row(&mut cells, 6));
    cut_rows(&mut cells, 8);
    assert_eq!(cells.len(), 1);
    // an unsorted track is sorted by the first note entered, equal rows as they were
    let mut cells = vec![cell(9, "a"), cell(3, "b"), cell(3, "c")];
    set_note(&mut cells, 5, Note::Name("d".to_string()));
    let all = names(&track("t", cells));
    let seen: Vec<(u32, &str)> = all.iter().map(|(r, n)| (*r, n.as_str())).collect();
    assert_eq!(seen, vec![(3, "b"), (3, "c"), (5, "d"), (9, "a")]);
    let mut tracks = vec![track("t", vec![cell(1, "a"), cell(5, "b")])];
    shorten(&mut tracks, 5);
    assert_eq!(tracks[0].cells.len(), 1);
    blank(&mut tracks);
    assert!(tracks[0].cells.is_empty());
}

#[test]
fn letters_of_notes() {
    for c in "abcdefgABCDEFG".chars() {
        assert!(is_note_letter(c));
    }
    for c in "hH1 \u{e0}".chars() {
        assert!(!is_note_letter(c));
    }
    assert_eq!(format_note('C', true, 4), "C#4");
    assert_eq!(format_note('C', false, -1), "C--1");
}

#[test]
fn rows_are_found_under_the_playhead() {
    let mut e = two();
    assert_eq!(spr_at(e.cur(), 48000), 6000);
    let l = e.layout(48000);
    assert_eq!((l[0].start_frame, l[0].len_frames, l[0].spr, l[0].rows), (0, 96000, 6000, 16));
    assert_eq!((l[1].start_frame, l[1].len_frames), (96000, 48000));
    assert_eq!(e.playing(48000, 0), (0, 0));
    assert_eq!(e.playing(48000, 95999), (0, 15));
    assert_eq!(e.playing(48000, 96000), (1, 0));
    assert_eq!(e.playing(48000, 143999), (1, 7));
    assert_eq!(e.playing(48000, 144000), (1, 0));
    e.play_scope = PlayScope::Pattern;
    assert_eq!(e.playing(48000, 96000), (0, 0));
    assert_eq!(e.playing(48000, 102000), (0, 1));
    // a tempo of nothing gives one row for ever
    e.song.patterns[0].tempo_bpm = s(0.0);
    assert_eq!(spr_at(e.cur(), 48000), u64::MAX);
    e.song.patterns[0].tempo_bpm = s(f32::NAN);
    assert_eq!(spr_at(e.cur(), 48000), 1);
}

#[test]
fn the_view_follows_the_playhead() {
    let mut e = two();
    // 30 lines leave 12 rows
    e.follow(48000, 6000 * 10, 30);
    assert_eq!((e.current, e.scroll), (0, 4));
    e.follow(48000, 96000, 30);
    assert_eq!((e.current, e.scroll), (1, 0));
    e.follow_playhead = false;
    e.follow(48000, 0, 30);
    assert_eq!(e.current, 1);
}

#[test]
fn a_status_fades() {
    let mut e = two();
    press(&mut e, 'm');
    e.age_status(1507);
    assert!(e.status.is_some());
    e.age_status(1508);
    assert!(e.status.is_none());
    e.set_status(Message::Text("x".to_string()), StatusKind::Warn, 3);
    assert_eq!(status(&e), ("x".to_string(), StatusKind::Warn));
}

#[test]
fn its_own_save_is_not_reloaded() {
    let mut e = two();
    e.dirty = true;
    assert!(e.save_as_song());
    e.save_done(Some(5), 9);
    assert!(!e.dirty && e.skip_next_reload);
    assert_eq!(status(&e), ("saved".to_string(), StatusKind::Done));
    assert!(!e.watch(Some(5)));
    assert!(!e.watch(None));
    // the first change after a save is taken for the save
    assert!(!e.watch(Some(6)));
    assert!(e.watch(Some(7)));
    assert!(!e.watch(Some(7)));
}

#[test]
fn formats_are_kept() {
    let mut e = editor(vec![pattern(4, vec![])]);
    assert!(!e.save_as_song());
    press(&mut e, 'n');
    assert!(e.save_as_song());
    press(&mut e, 'x');
    assert!(e.save_as_song());
    e.save_failed("disk full", 4);
    assert_eq!(status(&e), ("save failed: disk full".to_string(), StatusKind::Warn));
}

#[test]
fn a_reload_keeps_the_cursor_on_the_grid() {
    let mut e = two();
    e.current = 1;
    e.cursor_row = 7;
    e.error = Some("old".to_string());
    let song = Song { patterns: vec![pattern(4, vec![])], metadata: SongMetadata::default() };
    assert_eq!(e.reload(song, false, 3), Action::Render);
    assert_eq!((e.current, e.cursor_row, e.loaded_as_song), (0, 3, false));
    assert!(e.error.is_none());
    assert_eq!(status(&e), ("reloaded from disk".to_string(), StatusKind::Done));
    e.reload_failed("no such file");
    assert_eq!(e.error.as_deref(), Some("reload: no such file"));
}

#[test]
fn what_is_played_is_compiled_at_the_rate_of_the_device() {
    let mut e = two();
    let all = e.compile_scope(24000).unwrap();
    assert_eq!((all.sample_rate, all.duration_samples), (24000, 48000 + 24000));
    assert_eq!(e.compile_song(24000).unwrap().duration_samples, 72000);
    assert_eq!(e.compile_pattern(24000).unwrap().duration_samples, 48000);
    e.play_scope = PlayScope::Pattern;
    assert_eq!(e.compile_scope(24000).unwrap().duration_samples, 48000);
    e.song.patterns[0].rows = 0;
    assert!(matches!(e.compile_pattern(24000), Err(PatternError::DegenerateGrid)));
}

fn math(c: Curve) -> Single {
    s(match c {
        Curve::Sin(x) => f(x).sin(),
        Curve::Cos(x) => f(x).cos(),
        Curve::Exp(x) => f(x).exp(),
        Curve::Pow(x, y) => f(x).powf(f(y)),
    })
}

#[test]
fn an_edit_is_spliced_exactly() {
    let bank = SampleBank::empty();
    let mut e = two();
    e.song.patterns[1].tracks[0].cells.push(cell(1, "A-4"));
    let before = render_with_bank(&e.compile_song(8000).unwrap(), &bank, &math).unwrap();
    e.current = 0;
    e.cursor_row = 3;
    press(&mut e, 'e');
    let patch = render_with_bank(&e.compile_pattern(8000).unwrap(), &bank, &math).unwrap();
    let place = e.layout(8000)[0];
    let spliced = splice(&before, &patch, place.start_frame, place.len_frames).unwrap();
    let after = render_with_bank(&e.compile_song(8000).unwrap(), &bank, &math).unwrap();
    assert_ne!(before, after);
    assert_eq!(spliced, after);
}

/// Edits a pattern of a song and splices it in: the spliced sound, and that of
/// the whole song.
fn edited(mut e: Editor, i: usize) -> (bool, Vec<Single>, Vec<Single>) {
    let bank = SampleBank::empty();
    let before = render_with_bank(&e.compile_song(8000).unwrap(), &bank, &math).unwrap();
    e.current = i;
    e.cursor_row = 3;
    e.cursor_track = 0;
    let asked = press(&mut e, 'e');
    assert!(asked.contains(&Action::RenderEdit));
    assert_eq!(e.current, i);
    let exact = e.splices_exactly(8000);
    let patch = render_with_bank(&e.compile_pattern(8000).unwrap(), &bank, &math).unwrap();
    let place = e.layout(8000)[i];
    let spliced = splice(&before, &patch, place.start_frame, place.len_frames).unwrap();
    let after = render_with_bank(&e.compile_song(8000).unwrap(), &bank, &math).unwrap();
    assert_ne!(before, after);
    (exact, spliced, after)
}

#[test]
fn an_edit_is_spliced_where_it_sounds_the_same() {
    let (exact, spliced, after) = edited(two(), 1);
    assert!(exact && spliced == after);
    // the last definition of a voice wins
    let redefined = || {
        let mut e = two();
        let def = VoiceDef::Fm { modulator_ratio: s(2.0), modulation_index: s(3.0), default_pan: s(0.0) };
        e.song.patterns[1].voices.insert("v".to_string(), def);
        e
    };
    let (exact, spliced, after) = edited(redefined(), 0);
    assert!(!exact && spliced != after);
    let (exact, spliced, after) = edited(redefined(), 1);
    assert!(exact && spliced == after);
    // noise depends on when it sounds
    let noisy = || {
        let mut e = two();
        for p in e.song.patterns.iter_mut() {
            p.voices.insert("v".to_string(), VoiceDef::NoiseBandpass { q: s(2.0), default_pan: s(0.0) });
        }
        e
    };
    let (exact, spliced, after) = edited(noisy(), 0);
    assert!(exact && spliced == after);
    let (exact, spliced, after) = edited(noisy(), 1);
    assert!(!exact && spliced != after);
    // a song that does not compile
    let mut e = two();
    e.song.patterns[1].tracks[0].cells.push(cell(0, "H-9"));
    assert!(!e.splices_exactly(8000));
    // a sample that another pattern cuts otherwise
    let sampled = |end: u64| {
        let mut e = two();
        for (p, end_sample) in e.song.patterns.iter_mut().zip([9, end]) {
            let def = VoiceDef::Sample { sample_id: "s".to_string(), loop_mode: SampleLoopMode::OneShot };
            p.voices.insert("v".to_string(), def);
            let part = SampleRef { path: "s.wav".to_string(), start_sample: 0, end_sample, label: None };
            p.samples.insert("s".to_string(), part);
        }
        e.splices_exactly(8000)
    };
    assert!(sampled(9) && !sampled(8));
}

#[test]
fn a_planned_edit_gives_what_a_full_render_would() {
    let bank = SampleBank::empty();
    let none: Vec<Vec<u8>> = vec![];
    let whole = |e: &Editor| render_with_bank(&e.compile_scope(8000).unwrap(), &bank, &math).unwrap();
    let planned = |mut e: Editor| {
        let before = whole(&e);
        e.cursor_row = 3;
        press(&mut e, 'e');
        let plan = e.plan_edit(8000).unwrap();
        let made = plan.carry_out(&before, &none, &math).unwrap().unwrap();
        assert_ne!(before, made);
        assert_eq!(made, whole(&e));
        matches!(plan, EditPlan::Part(..))
    };
    let song = |i: usize| {
        let mut e = two();
        e.play_scope = PlayScope::Song;
        e.current = i;
        e
    };
    assert!(planned(song(0)) && planned(song(1)));
    let mut e = song(1);
    for p in e.song.patterns.iter_mut() {
        p.voices.insert("v".to_string(), VoiceDef::NoiseBandpass { q: s(2.0), default_pan: s(0.0) });
    }
    assert!(!planned(e));
    let mut e = two();
    e.play_scope = PlayScope::Pattern;
    assert!(!planned(e));
    // a part that does not line up with what is played
    let e = song(1);
    let plan = e.plan_edit(8000).unwrap();
    assert_eq!(plan.piece().duration_samples, e.layout(8000)[1].len_frames);
    assert!(plan.carry_out(&vec![], &none, &math).unwrap().is_none());
    // what does not compile
    let mut e = song(0);
    e.song.patterns[1].tracks[0].cells.push(cell(0, "H-9"));
    assert!(matches!(e.plan_edit(8000), Err(PatternError::BadNote(..))));
}

#[test]
fn a_preview_is_the_cell_alone() {
    let mut e = two();
    e.song.patterns[0].tracks[0].cells.push(cell(5, "D-3"));
    let p = e.compile_preview(5, 48000).unwrap();
    assert_eq!((p.events.len(), p.events[0].t, p.duration_samples), (1, 0, 16 * 6000));
    assert!(e.compile_preview(6, 48000).is_none());
    e.cursor_track = 1;
    assert!(e.compile_preview(5, 48000).is_none());
    e.cursor_track = 0;
    e.song.patterns[0].tracks[0].cells.push(cell(7, "H-3"));
    assert!(e.compile_preview(7, 48000).is_none());
}

fn texts(cells: &[rtracker::view::GridCell]) -> Vec<String> {
    cells
        .iter()
        .map(|c| match &c.text {
            CellText::Text(t) => t.clone(),
            CellText::Tenths(h) => format!("{:^9}", format!("{:.1}", f(*h))),
        })
        .collect()
}

#[test]
fn the_grid_shows_its_cells() {
    let mut e = two();
    let lines = e.grid_lines(Some(1), 6);
    assert_eq!(lines.len(), 3);
    assert_eq!(texts(&lines[0].cells), vec!["   C-3   ", "    \u{b7}    "]);
    assert!(lines[0].beat && !lines[0].playing && lines[1].playing && !lines[1].beat);
    assert_eq!((lines[0].cells[0].ground, lines[0].cells[1].ground), (Ground::Cursor, Ground::CursorRow));
    assert_eq!((lines[1].cells[0].ground, lines[2].cells[0].ground), (Ground::Playing, Ground::Plain));
    assert!(lines[0].cells[0].filled && !lines[0].cells[1].filled);
    e.scroll = 14;
    let rows: Vec<u32> = e.grid_lines(None, 30).iter().map(|l| l.row).collect();
    assert_eq!(rows, vec![14, 15]);
    e.scroll = 99;
    assert_eq!(e.grid_lines(None, 30)[0].row, 15);
    assert!(e.grid_lines(None, 2).is_empty());
}

#[test]
fn the_playhead_shows_in_the_playing_pattern() {
    let mut e = two();
    assert_eq!(e.playhead(48000, 6000, false), Some(1));
    assert_eq!(e.playhead(48000, 6000, true), None);
    assert_eq!(e.playhead(48000, 96000, false), None);
    e.current = 1;
    assert_eq!(e.playhead(48000, 96000, false), Some(0));
}

#[test]
fn labels_are_written_out() {
    let mut e = two();
    let heads = e.track_heads();
    assert_eq!((heads[0].text.as_str(), heads[0].marked), ("  kick   ", true));
    assert_eq!((heads[1].text.as_str(), heads[1].marked, heads[1].color), ("  snare  ", false, 1));
    assert_eq!(e.header_start(), " (untitled) \u{b7} pat 00/01 \u{b7} ");
    assert_eq!(e.header_end(), " BPM \u{b7} 16 rows \u{b7} 1/4 \u{b7} oct 3");
    e.song.patterns[0].metadata.title = Some("p".to_string());
    assert_eq!(e.header_start(), " p \u{b7} pat 00/01 \u{b7} ");
    e.song.metadata.title = Some("s".to_string());
    assert_eq!(e.header_start(), " s \u{b7} pat 00/01 \u{b7} ");
    assert_eq!(e.chip(1, false), "  01\u{b7}8 ");
    assert_eq!(e.chip(0, true), " \u{25b6}00\u{b7}16 ");
}

#[test]
fn cells_are_shown_in_their_width() {
    assert_eq!(center("abcd", 9), "  abcd   ");
    assert_eq!(center("abcdefghij", 9), "abcdefghij");
    assert_eq!(short("a long name"), "a long ");
    assert_eq!(short("seven77"), "seven77");
    assert!(matches!(format_cell(&Note::Name("C-4".to_string())), CellText::Text(t) if t == "C-4"));
    assert!(matches!(format_cell(&Note::Hz(s(440.9))), CellText::Text(t) if t == "440"));
    assert!(matches!(format_cell(&Note::Hz(s(1e20))), CellText::Text(t) if t == "4294967295"));
    assert!(matches!(format_cell(&Note::Hz(s(99.5))), CellText::Tenths(h) if f(h) == 99.5));
}

#[test]
fn the_scope_shows_what_surrounds_the_playhead() {
    let mut buffer: Vec<Single> = vec![];
    for i in 0..8192 {
        buffer.push(s(i as f32));
        buffer.push(s(i as f32 + 1.0));
    }
    let points = scope_points(&buffer, 4096, 34);
    // 32 columns make 64 bins of 64 frames, from 2048 on
    assert_eq!(points.len(), 64);
    assert_eq!(f(points[0]), 2048.5);
    assert_eq!(f(points[1]), 2112.5);
    let points = scope_points(&buffer, 0, 102);
    // 200 bins of 20 frames, wrapping round
    assert_eq!(points.len(), 200);
    assert_eq!(f(points[0]), 6144.5);
    let levels: Vec<usize> = [0.1_f32, 0.2, -0.5, 0.9].iter().map(|x| amp_level(s(*x), s(0.0))).collect();
    assert_eq!(levels, vec![0, 1, 2, 3]);
    assert_eq!(amp_level(s(0.0), s(-0.7)), 3);
}
