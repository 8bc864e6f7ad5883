use auris_core::error::AppError;
use auris_core::service::{
    audio_edit_state, check_audio_edit, check_reverted, collect_segment_parts, existing_tracks,
    imported_meeting, meeting_dir, meeting_duration, orig_name, parse_part_index, part_file_name,
    recorded_meeting, recovered_meeting, recovery_action, segment_paths, start_recording,
    track_path, validate_id, Recovery,
};

fn names(v: &[&str]) -> Vec<String> {
    v.iter().map(|s| s.to_string()).collect()
}

#[test]
fn start_creates_folder_and_first_segment() {
    let active = start_recording("/data", "m1").unwrap();
    assert_eq!(active.dir, "/data/meetings/m1");
    let (mic, system) = active.current.as_ref().unwrap();
    assert!(mic.ends_with("mic.part0.wav"));
    assert!(system.ends_with("system.part0.wav"));
    assert!(active.segments.is_empty());
}

#[test]
fn pause_resume_numbers_segments() {
    let mut active = start_recording("/data", "m1").unwrap();
    assert!(active.is_running());
    active.pause();
    assert_eq!(active.segments.len(), 1);
    assert!(active.current.is_none());
    active.pause();
    assert_eq!(active.segments.len(), 1);
    let next = active.next_segment().unwrap();
    assert_eq!(next.0, "/data/meetings/m1/mic.part1.wav");
    active.resume(next);
    assert!(active.next_segment().is_none());
    let (mic, system) = active.all_parts();
    assert_eq!(mic, names(&["/data/meetings/m1/mic.part0.wav", "/data/meetings/m1/mic.part1.wav"]));
    assert_eq!(system.len(), 2);
    let m = recorded_meeting(&active, "2026-06-04T10:00:00Z".into(), 4);
    assert_eq!(m.duration_secs, 4);
    assert_eq!(m.title, "Новая встреча");
    assert_eq!(m.status, "recorded");
    assert_eq!(m.folder, "m1");
}

#[test]
fn track_path_rejects_unknown_file() {
    assert!(matches!(track_path("/data", "m1", "secrets.txt"), Err(AppError::InvalidInput(_))));
    assert_eq!(track_path("/data", "m1", "mic.wav").unwrap(), "/data/meetings/m1/mic.wav");
}

#[test]
fn rejects_path_traversal_id() {
    assert!(matches!(start_recording("/data", "../escape"), Err(AppError::InvalidInput(_))));
    assert!(matches!(track_path("/data", "../escape", "mic.wav"), Err(AppError::InvalidInput(_))));
    assert!(matches!(validate_id("../escape"), Err(AppError::InvalidInput(_))));
    assert!(matches!(validate_id("a\\b"), Err(AppError::InvalidInput(_))));
    assert!(matches!(validate_id(""), Err(AppError::InvalidInput(m)) if m == "invalid meeting id: "));
    assert!(validate_id("2026-06-04 call").is_ok());
}

#[test]
fn audio_edit_state_lists_tracks_without_backup() {
    let st = audio_edit_state("m1", &names(&["system.wav", "mic.wav", "transcript.json"])).unwrap();
    assert_eq!(st.tracks, vec!["mic.wav", "system.wav"]);
    assert!(!st.has_original);
    let st = audio_edit_state("m1", &names(&["audio.wav", "audio.orig.wav"])).unwrap();
    assert_eq!(st.tracks, vec!["audio.wav"]);
    assert!(st.has_original);
}

#[test]
fn apply_without_cuts_is_rejected() {
    let tracks = names(&["mic.wav"]);
    assert!(matches!(check_audio_edit("m1", 0, &tracks), Err(AppError::InvalidInput(_))));
    assert!(matches!(check_audio_edit("m1", 1, &Vec::new()), Err(AppError::NotFound(m)) if m == "аудио встречи m1"));
    assert!(check_audio_edit("m1", 1, &tracks).is_ok());
}

#[test]
fn revert_without_backup_is_error() {
    assert!(matches!(check_reverted(0), Err(AppError::InvalidState(_))));
    assert!(check_reverted(2).is_ok());
}

#[test]
fn audio_edit_rejects_path_traversal_id() {
    assert!(matches!(check_audio_edit("../escape", 1, &names(&["mic.wav"])), Err(AppError::InvalidInput(_))));
    assert!(matches!(audio_edit_state("../escape", &Vec::new()), Err(AppError::InvalidInput(_))));
}

#[test]
fn part_names_round_trip() {
    assert_eq!(part_file_name("mic", 3), "mic.part3.wav");
    assert_eq!(parse_part_index("mic.part3.wav", "mic"), Some(3));
    assert_eq!(parse_part_index("mic.part12.wav", "mic"), Some(12));
    assert_eq!(parse_part_index("mic.part.wav", "mic"), None);
    assert_eq!(parse_part_index("mic.partx.wav", "mic"), None);
    assert_eq!(parse_part_index("system.part1.wav", "mic"), None);
    assert_eq!(parse_part_index("mic.wav", "mic"), None);
    let (m, s) = segment_paths("/d", 7);
    assert_eq!((m.as_str(), s.as_str()), ("/d/mic.part7.wav", "/d/system.part7.wav"));
}

#[test]
fn collects_parts_sorted_by_number() {
    let (mic, system) = collect_segment_parts(&names(&[
        "mic.part10.wav",
        "system.part1.wav",
        "mic.part2.wav",
        "mic.wav",
        "system.part0.wav",
        "notes.txt",
        "mic.part1.wav",
    ]));
    assert_eq!(mic, names(&["mic.part1.wav", "mic.part2.wav", "mic.part10.wav"]));
    assert_eq!(system, names(&["system.part0.wav", "system.part1.wav"]));
}

#[test]
fn recovery_decisions() {
    assert_eq!(recovery_action(0, false), Recovery::Discard);
    assert_eq!(recovery_action(2, false), Recovery::Insert);
    assert_eq!(recovery_action(0, true), Recovery::Keep);
    let m = recovered_meeting("orphan", "2026-06-04T10:00:00Z".into(), 2);
    assert_eq!(m.title, "Восстановленная запись");
    assert_eq!(m.duration_secs, 2);
    assert_eq!(meeting_duration(Some(3), None), 3);
    assert_eq!(meeting_duration(Some(3), Some(5)), 5);
}

#[test]
fn import_titles_and_backups() {
    assert_eq!(imported_meeting("imp1", "t".into(), Some("voice memo"), 3).title, "voice memo");
    assert_eq!(imported_meeting("imp1", "t".into(), Some(""), 3).title, "Импортированная запись");
    assert_eq!(imported_meeting("imp1", "t".into(), None, 3).source, "imported");
    assert_eq!(orig_name("mic.wav"), "mic.orig.wav");
    assert_eq!(orig_name("a.wav.wav"), "a.orig.wav");
    assert_eq!(orig_name("notes"), "notes.orig.wav");
    assert_eq!(existing_tracks(&names(&["audio.wav", "mic.wav"])), names(&["mic.wav", "audio.wav"]));
    assert_eq!(meeting_dir("", "m"), "meetings/m");
}
