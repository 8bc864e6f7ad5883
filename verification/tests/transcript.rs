use auris_core::cluster::{count_speakers, renumber_labels, voice_target};
use auris_core::text::is_blank_str;
use auris_core::transcript::{
    assign_speakers_with, single_speaker, speaker_label, tag_tracks, DiarSegment,
    Segment, Transcript, TranscriptSegment,
};

fn seg(start: f64, text: &str) -> Segment<f64> {
    Segment { start_secs: start, end_secs: start + 1.0, text: text.into() }
}

// The three helpers below are copies of the application's f64 drivers
// (`merge_tracks`, `best_speaker`, `assign_speakers` in app/transcript.rs),
// which tests cannot name. The tests that use them exercise these copies
// around the verified `tag_tracks` and `assign_speakers_with`, not the
// shipped application code.

/// Both tracks tagged, then ordered by start time with a stable sort.
fn merge_tracks(mic: Vec<Segment<f64>>, system: Vec<Segment<f64>>) -> Transcript<f64> {
    let mut segments: Vec<TranscriptSegment<f64>> = tag_tracks(&mic, &system);
    segments.sort_by(|a, b| a.start_secs.partial_cmp(&b.start_secs).unwrap_or(std::cmp::Ordering::Equal));
    Transcript { segments }
}

fn best_speaker(diar: &[DiarSegment<f64>], start: f64, end: f64) -> Option<u32> {
    let mut best: Option<(f64, u32)> = None;
    for d in diar {
        let overlap = (end.min(d.end_secs) - start.max(d.start_secs)).max(0.0);
        if overlap > 0.0 && best.map(|(o, _)| overlap > o).unwrap_or(true) {
            best = Some((overlap, d.speaker));
        }
    }
    if let Some((_, sp)) = best {
        return Some(sp);
    }
    let mid = (start + end) / 2.0;
    let dist = |d: &DiarSegment<f64>| {
        if mid < d.start_secs {
            d.start_secs - mid
        } else if mid > d.end_secs {
            mid - d.end_secs
        } else {
            0.0
        }
    };
    diar.iter()
        .min_by(|a, b| dist(a).partial_cmp(&dist(b)).unwrap_or(std::cmp::Ordering::Equal))
        .map(|d| d.speaker)
}

fn assign_speakers(whisper: Vec<Segment<f64>>, diar: Vec<DiarSegment<f64>>) -> Transcript<f64> {
    let best: Vec<Option<u32>> =
        whisper.iter().map(|s| best_speaker(&diar, s.start_secs, s.end_secs)).collect();
    assign_speakers_with(whisper, best)
}

#[test]
fn speaker_label_maps_known_and_spk() {
    assert_eq!(speaker_label("me"), "Я");
    assert_eq!(speaker_label("them"), "Собеседник");
    assert_eq!(speaker_label("spk0"), "Спикер 1");
    assert_eq!(speaker_label("spk2"), "Спикер 3");
    assert_eq!(speaker_label("custom"), "custom");
}

#[test]
fn merges_and_orders_by_start_time() {
    let mic = vec![seg(0.0, "привет"), seg(4.0, "как дела")];
    let system = vec![seg(2.0, "здравствуй")];
    let t = merge_tracks(mic, system);
    let order: Vec<(&str, &str)> =
        t.segments.iter().map(|s| (s.speaker.as_str(), s.text.as_str())).collect();
    assert_eq!(order, vec![("me", "привет"), ("them", "здравствуй"), ("me", "как дела")]);
}

#[test]
fn skips_empty_text() {
    let mic = vec![seg(0.0, "  "), seg(1.0, "ok")];
    let t = merge_tracks(mic, vec![]);
    assert_eq!(t.segments.len(), 1);
    assert_eq!(t.segments[0].text, "ok");
}

#[test]
fn tie_breaks_me_before_them() {
    let mic = vec![seg(1.0, "я")];
    let system = vec![seg(1.0, "он")];
    let t = merge_tracks(mic, system);
    assert_eq!(t.segments[0].speaker, "me");
    assert_eq!(t.segments[1].speaker, "them");
}

#[test]
fn single_speaker_assigns_one_and_skips_empty() {
    let segs = vec![seg(0.0, "первая"), seg(1.0, "  "), seg(2.0, "вторая")];
    let t = single_speaker(segs, "spk0");
    assert_eq!(t.segments.len(), 2);
    assert!(t.segments.iter().all(|s| s.speaker == "spk0"));
}

#[test]
fn assign_speakers_by_max_overlap_and_renumbers() {
    let whisper = vec![seg(0.0, "привет"), seg(5.0, "как дела"), seg(0.5, "ещё я")];
    let diar = vec![
        DiarSegment { start_secs: 0.0, end_secs: 2.0, speaker: 7 },
        DiarSegment { start_secs: 4.0, end_secs: 8.0, speaker: 3 },
    ];
    let t = assign_speakers(whisper, diar);
    assert_eq!(t.segments[0].speaker, "spk0");
    assert_eq!(t.segments[1].speaker, "spk1");
    assert_eq!(t.segments[2].speaker, "spk0");
}

#[test]
fn assign_speakers_empty_diar_is_single_speaker() {
    let t = assign_speakers(vec![seg(0.0, "a"), seg(2.0, "b")], vec![]);
    assert_eq!(t.segments.len(), 2);
    assert!(t.segments.iter().all(|s| s.speaker == "spk0"));
}

#[test]
fn assign_speakers_no_overlap_picks_nearest() {
    let whisper = vec![seg(10.0, "поздняя реплика")];
    let diar = vec![
        DiarSegment { start_secs: 0.0, end_secs: 5.0, speaker: 1 },
        DiarSegment { start_secs: 8.0, end_secs: 9.0, speaker: 2 },
    ];
    let t = assign_speakers(whisper, diar);
    assert_eq!(t.segments[0].speaker, "spk0");
}

#[test]
fn assign_speakers_with_renumbers_in_order_of_appearance() {
    let whisper = vec![seg(0.0, "a"), seg(1.0, " "), seg(2.0, "b"), seg(3.0, "c"), seg(4.0, "d")];
    let best = vec![Some(9), Some(4), Some(4), None, Some(9)];
    let t = assign_speakers_with(whisper, best);
    let ids: Vec<&str> = t.segments.iter().map(|s| s.speaker.as_str()).collect();
    assert_eq!(ids, vec!["spk0", "spk1", "spk0", "spk0"]);
}

#[test]
fn count_speakers_counts_distinct_labels() {
    assert_eq!(count_speakers(&[]), 0);
    assert_eq!(count_speakers(&[3, 3, 1, 0, 1]), 3);
}

#[test]
fn blank_is_unicode_whitespace() {
    assert!(is_blank_str(" \t\n\u{a0}\u{3000}"));
    assert!(!is_blank_str(" x "));
}

#[test]
fn renumbers_labels_by_first_appearance_in_time() {
    // Windows 0..4 visited by time as 2, 0, 3, 1.
    let labels = vec![5, 9, 9, 5];
    let order = vec![2, 0, 3, 1];
    assert_eq!(renumber_labels(&labels, &order), vec![1, 0, 0, 1]);
    assert_eq!(renumber_labels(&vec![], &vec![]), Vec::<u32>::new());
}

#[test]
fn voice_target_follows_the_asked_number_or_the_large_clusters() {
    assert_eq!(voice_target(None, 5, 2), (2, 2));
    assert_eq!(voice_target(None, 20, 0), (1, 1));
    assert_eq!(voice_target(None, 20, 15), (10, 15));
    assert_eq!(voice_target(Some(4), 6, 2), (4, 4));
    assert_eq!(voice_target(Some(4), 3, 2), (3, 3));
    assert_eq!(voice_target(Some(0), 3, 2), (1, 2));
}

#[test]
fn renumbering_gives_each_new_label_the_next_number() {
    let labels = vec![7usize, 7, 2, 9, 2];
    assert_eq!(renumber_labels(&labels, &vec![0, 1, 2, 3, 4]), vec![0, 0, 1, 2, 1]);
    assert_eq!(renumber_labels(&labels, &vec![4, 3, 2, 1, 0]), vec![2, 2, 0, 1, 0]);
}
