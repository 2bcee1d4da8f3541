use slammer::export::{filename_for, suggested_filename, ExportState, FilenameCounter, Format};

#[test]
fn suggested_filename_has_expected_prefix_and_extension() {
    let mut counter = FilenameCounter::new();
    let name = suggested_filename(Format::Wav, &mut counter);
    assert!(name.starts_with("slammer_"));
    assert!(name.ends_with(".wav"));
    let aiff = suggested_filename(Format::Aiff, &mut counter);
    assert!(aiff.ends_with(".aiff"));
}

#[test]
fn suggested_filenames_are_unique_within_a_second() {
    let mut counter = FilenameCounter::new();
    let a = suggested_filename(Format::Wav, &mut counter);
    let b = suggested_filename(Format::Wav, &mut counter);
    assert_ne!(a, b, "two rapid calls must produce distinct names");
}

#[test]
fn from_extension_parses_common_cases() {
    assert_eq!(Format::from_extension("wav"), Some(Format::Wav));
    assert_eq!(Format::from_extension("WAV"), Some(Format::Wav));
    assert_eq!(Format::from_extension("aif"), Some(Format::Aiff));
    assert_eq!(Format::from_extension("AIFF"), Some(Format::Aiff));
    assert_eq!(Format::from_extension("flac"), None);
}

#[test]
fn from_extension_rejects_near_misses() {
    assert_eq!(Format::from_extension(""), None);
    assert_eq!(Format::from_extension("wave"), None);
    assert_eq!(Format::from_extension("aiffs"), None);
    assert_eq!(Format::from_extension("WaV"), Some(Format::Wav));
}

#[test]
fn extension_and_label() {
    assert_eq!(Format::Wav.extension(), "wav");
    assert_eq!(Format::Aiff.extension(), "aiff");
    assert_eq!(Format::Wav.label(), "WAV");
    assert_eq!(Format::Aiff.label(), "AIFF");
    assert_eq!(Format::from_extension(Format::Aiff.extension()), Some(Format::Aiff));
}

#[test]
fn filename_for_exact_values() {
    assert_eq!(filename_for(1700000000, 0, Format::Wav), "slammer_1700000000_00.wav");
    assert_eq!(filename_for(0, 7, Format::Aiff), "slammer_0_07.aiff");
    assert_eq!(filename_for(42, 123, Format::Wav), "slammer_42_123.wav");
    assert_eq!(filename_for(u64::MAX, 10, Format::Wav), "slammer_18446744073709551615_10.wav");
}

#[test]
fn filenames_from_different_sequence_numbers_differ() {
    let names: Vec<String> = (0..200).map(|s| filename_for(5, s, Format::Wav)).collect();
    for i in 0..names.len() {
        for j in (i + 1)..names.len() {
            assert_ne!(names[i], names[j]);
        }
    }
}

#[test]
fn restore_uses_defaults_for_missing_or_unknown_values() {
    let s = ExportState::restore(None, "/music".to_string(), None);
    assert_eq!(s.last_dir, "/music");
    assert_eq!(s.last_format, Format::Wav);
    let s = ExportState::restore(Some("/x".to_string()), "/music".to_string(), Some("aif"));
    assert_eq!(s.last_dir, "/x");
    assert_eq!(s.last_format, Format::Aiff);
    let s = ExportState::restore(None, "/music".to_string(), Some("mp3"));
    assert_eq!(s.last_format, Format::Wav);
}

#[test]
fn format_for_extension_cases() {
    let s = ExportState { last_dir: "/d".to_string(), last_format: Format::Aiff };
    assert_eq!(s.format_for_extension(None), Ok(Format::Aiff));
    assert_eq!(s.format_for_extension(Some("WAV")), Ok(Format::Wav));
    assert_eq!(s.format_for_extension(Some("ogg")), Err("ogg".to_string()));
}

#[test]
fn remember_updates_dir_and_format() {
    let mut s = ExportState { last_dir: "/d".to_string(), last_format: Format::Wav };
    s.remember(Some("/e".to_string()), Format::Aiff);
    assert_eq!(s.last_dir, "/e");
    assert_eq!(s.last_format, Format::Aiff);
    s.remember(None, Format::Wav);
    assert_eq!(s.last_dir, "/e");
    assert_eq!(s.last_format, Format::Wav);
}

use slammer::export::tmp_file_name;

#[test]
fn tmp_file_name_appends_suffix() {
    assert_eq!(tmp_file_name(Some("kick.wav")), "kick.wav.tmp");
    assert_eq!(tmp_file_name(None), ".tmp");
}

#[test]
fn extension_and_label_name_their_format_again() {
    for f in [Format::Wav, Format::Aiff] {
        assert_eq!(Format::from_extension(f.extension()), Some(f));
        assert_eq!(Format::from_extension(f.label()), Some(f));
    }
}
