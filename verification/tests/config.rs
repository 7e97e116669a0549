use midisynth::config::{Config, ConfigError, InstrumentSetting, SettingError};
use midisynth::mixer::mix_length;
use midisynth::player::PlayerTrack;
use midisynth::plan::{plan, NoOutput, RenderJob, RenderPlan, Warning};

fn value(text: &str) -> toml::Value {
    toml::Value::Table(text.parse::<toml::Table>().unwrap())
}

fn named(name: Option<&str>) -> PlayerTrack {
    PlayerTrack { name: name.map(|n| n.to_string()), length: 0, events: Vec::new() }
}

#[test]
fn setting_reads_bank_preset_and_transpose() {
    assert_eq!(
        InstrumentSetting::from_toml(&value("bank = 1\npreset = 42\ntsp = -12\npan = 0.5")),
        Ok(InstrumentSetting { bank: 1, preset: 42, transpose: Some(-12) })
    );
    assert_eq!(
        InstrumentSetting::from_toml(&value("bank = 0\npreset = 255")),
        Ok(InstrumentSetting { bank: 0, preset: 255, transpose: None })
    );
}

#[test]
fn setting_needs_bank_then_preset() {
    assert_eq!(InstrumentSetting::from_toml(&value("preset = 1")), Err(SettingError::MissingBank));
    assert_eq!(InstrumentSetting::from_toml(&value("")), Err(SettingError::MissingBank));
    assert_eq!(InstrumentSetting::from_toml(&value("bank = 1")), Err(SettingError::MissingPreset));
    assert_eq!(
        InstrumentSetting::from_toml(&value("bank = \"1\"\npreset = 1")),
        Err(SettingError::MissingBank)
    );
    assert_eq!(
        InstrumentSetting::from_toml(&value("bank = 1\npreset = 1.0")),
        Err(SettingError::MissingPreset)
    );
    assert_eq!(
        InstrumentSetting::from_toml(&toml::Value::Integer(3)),
        Err(SettingError::MissingBank)
    );
}

#[test]
fn setting_ignores_a_transpose_that_is_no_integer() {
    assert_eq!(
        InstrumentSetting::from_toml(&value("bank = 1\npreset = 2\ntsp = \"x\"")),
        Ok(InstrumentSetting { bank: 1, preset: 2, transpose: None })
    );
}

#[test]
fn setting_keeps_the_lowest_eight_bits() {
    assert_eq!(
        InstrumentSetting::from_toml(&value("bank = 300\npreset = -1\ntsp = 200")),
        Ok(InstrumentSetting { bank: 44, preset: 255, transpose: Some(-56) })
    );
    assert_eq!(
        InstrumentSetting::from_toml(&value("bank = 256\npreset = -256\ntsp = -129")),
        Ok(InstrumentSetting { bank: 0, preset: 0, transpose: Some(127) })
    );
}

#[test]
fn setting_errors_in_words() {
    assert_eq!(SettingError::MissingBank.message(), "Missing bank value");
    assert_eq!(SettingError::MissingPreset.message(), "Missing preset value");
}

#[test]
fn config_holds_soundfont_and_instruments() {
    let c = Config::parse(
        "soundfont = \"gm.sf2\"\n[[instr.Piano]]\nbank = 0\npreset = 1\n[[instr.Piano]]\nbank = 0\npreset = 2\n",
    )
    .unwrap();
    assert_eq!(c.soundfont(), "gm.sf2");
    let piano = c.instruments().get("Piano").unwrap().as_array().unwrap();
    assert_eq!(piano.len(), 2);
    assert_eq!(piano[1].get("preset").unwrap().as_integer(), Some(2));
}

#[test]
fn config_that_is_no_toml_is_refused() {
    assert!(matches!(Config::parse("soundfont = "), Err(ConfigError::Parse(_))));
}

#[test]
fn config_needs_instruments_then_soundfont() {
    assert!(matches!(Config::parse(""), Err(ConfigError::NoInstruments)));
    assert!(matches!(Config::parse("soundfont = \"a\""), Err(ConfigError::NoInstruments)));
    assert!(matches!(
        Config::parse("instr = 3\nsoundfont = \"a\""),
        Err(ConfigError::NoInstruments)
    ));
    assert!(matches!(Config::parse("[instr]"), Err(ConfigError::NoSoundfont)));
    assert!(matches!(Config::parse("soundfont = 3\n[instr]"), Err(ConfigError::NoSoundfont)));
    assert!(Config::parse("soundfont = \"\"\n[instr]").is_ok());
}

#[test]
fn document_is_checked_for_instruments_then_soundfont() {
    assert!(matches!(
        Config::from_document(toml::Value::Integer(1)),
        Err(ConfigError::NoInstruments)
    ));
    assert!(matches!(
        Config::from_document(toml::Value::Array(vec![toml::Value::String("instr".into())])),
        Err(ConfigError::NoInstruments)
    ));
    let mut table = toml::Table::new();
    table.insert("instr".into(), toml::Value::Table(toml::Table::new()));
    assert!(matches!(
        Config::from_document(toml::Value::Table(table.clone())),
        Err(ConfigError::NoSoundfont)
    ));
    table.insert("soundfont".into(), toml::Value::Boolean(true));
    assert!(matches!(
        Config::from_document(toml::Value::Table(table.clone())),
        Err(ConfigError::NoSoundfont)
    ));
    table.insert("soundfont".into(), toml::Value::String("piano.sf2".into()));
    let c = Config::from_document(toml::Value::Table(table)).unwrap();
    assert_eq!(c.soundfont(), "piano.sf2");
    assert!(c.instruments().is_table());
}

#[test]
fn plan_matches_tracks_by_name() {
    let instr = value(
        "[[Piano]]\nbank = 0\npreset = 1\n[[Piano]]\npreset = 2\n[[Piano]]\nbank = 5\npreset = 6\ntsp = 3\n[[Drums]]\nbank = 128\n[[Unused]]\nbank = 0\npreset = 0\n",
    );
    let tracks = vec![
        named(Some("Conductor")),
        named(Some("Piano")),
        named(None),
        named(Some("Bass")),
        named(Some("Drums")),
        named(Some("Piano")),
    ];
    let first = InstrumentSetting { bank: 0, preset: 1, transpose: None };
    let third = InstrumentSetting { bank: 5, preset: 6, transpose: Some(3) };
    assert_eq!(
        plan(&tracks, &instr),
        Ok(RenderPlan {
            jobs: vec![
                RenderJob { track: 1, index: 0, setting: first },
                RenderJob { track: 1, index: 2, setting: third },
                RenderJob { track: 5, index: 0, setting: first },
                RenderJob { track: 5, index: 2, setting: third },
            ],
            warnings: vec![
                Warning::BadSetting { track: 1, index: 1, error: SettingError::MissingBank },
                Warning::NoInstruments { track: 3 },
                Warning::BadSetting { track: 4, index: 0, error: SettingError::MissingPreset },
                Warning::BadSetting { track: 5, index: 1, error: SettingError::MissingBank },
            ],
        })
    );
}

#[test]
fn plan_without_a_match_is_the_zero_output_error() {
    let instr = value("[[Piano]]\nbank = 0\npreset = 1\n");
    let tracks = vec![named(Some("Flute")), named(Some("Oboe")), named(None)];
    assert_eq!(
        plan(&tracks, &instr),
        Err(NoOutput { warnings: vec![Warning::NoInstruments { track: 1 }] })
    );
    assert_eq!(plan(&Vec::new(), &instr), Err(NoOutput { warnings: vec![] }));
}

#[test]
fn plan_with_unreadable_settings_only_is_the_zero_output_error() {
    let instr = value("Flute = 3\n[[Piano]]\nbank = 0\n");
    let tracks = vec![named(Some("Piano")), named(Some("Flute"))];
    assert_eq!(
        plan(&tracks, &instr),
        Err(NoOutput {
            warnings: vec![
                Warning::BadSetting { track: 0, index: 0, error: SettingError::MissingPreset },
                Warning::NoInstruments { track: 1 },
            ],
        })
    );
}

#[test]
fn plan_takes_settings_for_the_first_track_too() {
    let instr = value("[[Lead]]\nbank = 1\npreset = 2\n");
    let tracks = vec![named(Some("Lead"))];
    let p = plan(&tracks, &instr).unwrap();
    assert_eq!(
        p.jobs,
        vec![RenderJob {
            track: 0,
            index: 0,
            setting: InstrumentSetting { bank: 1, preset: 2, transpose: None },
        }]
    );
    assert!(p.warnings.is_empty());
}

#[test]
fn mix_is_as_long_as_the_longest_track() {
    assert_eq!(mix_length(&vec![64, 256, 128]), Some(256));
    assert_eq!(mix_length(&vec![0]), Some(0));
    assert_eq!(mix_length(&vec![7, 7]), Some(7));
    assert_eq!(mix_length(&vec![usize::MAX, 1]), Some(usize::MAX));
    assert_eq!(mix_length(&Vec::new()), None);
}
