//! The configuration: the sound font to load and the instruments that play
//! each track, read from a TOML document.

use vstd::prelude::*;

verus! {

#[verifier::external_type_specification]
#[verifier::external_body]
pub struct ExValue(toml::Value);

#[verifier::external_type_specification]
#[verifier::external_body]
pub struct ExParseError(toml::de::Error);

/// What a TOML value holds. A float and a date keep no payload here.
pub enum Toml {
    Text(Seq<char>),
    Integer(i64),
    Float,
    Boolean(bool),
    Datetime,
    Array(Seq<Toml>),
    Table(Map<Seq<char>, Toml>),
}

/// What a `toml::Value` holds.
pub uninterp spec fn toml_model(value: toml::Value) -> Toml;

/// The document that a text parses to, if it is valid TOML.
pub uninterp spec fn parsed_document(text: Seq<char>) -> Option<Toml>;

/// `str::parse::<toml::Table>`, the table wrapped up as a value: the
/// document that the text holds, which is a table, or the parser's error.
#[verifier::external_body]
fn parse_document(text: &str) -> (r: Result<toml::Value, toml::de::Error>)
    ensures
        match r {
            Ok(v) => parsed_document(text@) == Some(toml_model(v)) && toml_model(v) is Table,
            Err(_) => parsed_document(text@) is None,
        },
{
    text.parse::<toml::Table>().map(toml::Value::Table)
}

/// `toml::Value::get` with a string key: the entry under that key where the
/// value is a table that has one, and nothing otherwise.
#[verifier::external_body]
pub(crate) fn value_get<'a>(value: &'a toml::Value, key: &str) -> (r: Option<&'a toml::Value>)
    ensures
        match r {
            Some(entry) => toml_model(*value) matches Toml::Table(t) && t.contains_key(key@)
                && t[key@] == toml_model(*entry),
            None => !(toml_model(*value) matches Toml::Table(t) && t.contains_key(key@)),
        },
{
    value.get(key)
}

/// `toml::Value::as_integer`: the number where the value is an integer.
#[verifier::external_body]
fn value_as_integer(value: &toml::Value) -> (r: Option<i64>)
    ensures
        r == match toml_model(*value) {
            Toml::Integer(i) => Some(i),
            _ => None,
        },
{
    value.as_integer()
}

/// `toml::Value::as_str`: the text where the value is a string.
#[verifier::external_body]
fn value_as_str(value: &toml::Value) -> (r: Option<&str>)
    ensures
        match r {
            Some(s) => toml_model(*value) == Toml::Text(s@),
            None => !(toml_model(*value) is Text),
        },
{
    value.as_str()
}

/// `toml::Value::as_array`: the items where the value is an array.
#[verifier::external_body]
pub(crate) fn value_as_array(value: &toml::Value) -> (r: Option<&Vec<toml::Value>>)
    ensures
        match r {
            Some(items) => toml_model(*value) == Toml::Array(
                Seq::new(items@.len(), |i: int| toml_model(items@[i])),
            ),
            None => !(toml_model(*value) is Array),
        },
{
    value.as_array()
}

/// `toml::Value::is_table`: whether the value is a table.
#[verifier::external_body]
fn value_is_table(value: &toml::Value) -> (r: bool)
    ensures
        r == (toml_model(*value) is Table),
{
    value.is_table()
}

/// The entry of a table under a key.
pub open spec fn entry_of(value: Toml, key: Seq<char>) -> Option<Toml> {
    match value {
        Toml::Table(t) => if t.contains_key(key) {
            Some(t[key])
        } else {
            None
        },
        _ => None,
    }
}

/// The integer that a table holds under a key.
pub open spec fn integer_at(value: Toml, key: Seq<char>) -> Option<i64> {
    match entry_of(value, key) {
        Some(Toml::Integer(i)) => Some(i),
        _ => None,
    }
}

/// The lowest eight bits of a number, as a byte.
pub open spec fn low_byte(v: i64) -> u8 {
    (v % 256) as u8
}

/// The lowest eight bits of a number, as a signed byte.
pub open spec fn low_byte_signed(v: i64) -> i8 {
    if v % 256 < 128 {
        (v % 256) as i8
    } else {
        (v % 256 - 256) as i8
    }
}

/// Why a table is no instrument setting.
#[derive(Clone, Copy, Debug, PartialEq, Eq, Structural)]
pub enum SettingError {
    /// There is no integer under `bank`.
    MissingBank,
    /// There is no integer under `preset`.
    MissingPreset,
}

impl SettingError {
    /// The error in words.
    pub fn message(&self) -> (r: &'static str)
        ensures
            r@ == match self {
                SettingError::MissingBank => "Missing bank value"@,
                SettingError::MissingPreset => "Missing preset value"@,
            },
    {
        match self {
            SettingError::MissingBank => "Missing bank value",
            SettingError::MissingPreset => "Missing preset value",
        }
    }
}

/// How one instrument plays a track: the bank and preset of the sound, and
/// the semitones by which every note is shifted.
#[derive(Clone, Copy, Debug, PartialEq, Eq, Structural)]
pub struct InstrumentSetting {
    pub bank: u8,
    pub preset: u8,
    pub transpose: Option<i8>,
}

/// The instrument setting that a TOML value holds: the integers under
/// `bank`, `preset` and `tsp`, each cut to its lowest eight bits. The first
/// two must be there.
pub open spec fn setting_of(value: Toml) -> Result<InstrumentSetting, SettingError> {
    match integer_at(value, "bank"@) {
        None => Err(SettingError::MissingBank),
        Some(bank) => match integer_at(value, "preset"@) {
            None => Err(SettingError::MissingPreset),
            Some(preset) => Ok(
                InstrumentSetting {
                    bank: low_byte(bank),
                    preset: low_byte(preset),
                    transpose: match integer_at(value, "tsp"@) {
                        Some(t) => Some(low_byte_signed(t)),
                        None => None,
                    },
                },
            ),
        },
    }
}

/// The integer under a key of a table.
fn get_integer(value: &toml::Value, key: &str) -> (r: Option<i64>)
    ensures
        r == integer_at(toml_model(*value), key@),
{
    match value_get(value, key) {
        Some(entry) => value_as_integer(entry),
        None => None,
    }
}

impl InstrumentSetting {
    /// Reads an instrument setting from a TOML value.
    pub fn from_toml(setting: &toml::Value) -> (r: Result<InstrumentSetting, SettingError>)
        ensures
            r == setting_of(toml_model(*setting)),
    {
        let bank = match get_integer(setting, "bank") {
            Some(v) => v,
            None => {
                return Err(SettingError::MissingBank);
            },
        };
        let preset = match get_integer(setting, "preset") {
            Some(v) => v,
            None => {
                return Err(SettingError::MissingPreset);
            },
        };
        let transpose = match get_integer(setting, "tsp") {
            Some(v) => {
                assert(v as i8 == low_byte_signed(v)) by (bit_vector);
                Some(#[verifier::truncate] (v as i8))
            },
            None => None,
        };
        assert(bank as u8 == low_byte(bank)) by (bit_vector);
        assert(preset as u8 == low_byte(preset)) by (bit_vector);
        Ok(
            InstrumentSetting {
                bank: #[verifier::truncate] (bank as u8),
                preset: #[verifier::truncate] (preset as u8),
                transpose,
            },
        )
    }
}

/// The table of instruments that a document holds under `instr`.
pub open spec fn instruments_of(document: Toml) -> Option<Toml> {
    match entry_of(document, "instr"@) {
        Some(Toml::Table(t)) => Some(Toml::Table(t)),
        _ => None,
    }
}

/// The name of the sound font file that a document holds under
/// `soundfont`.
pub open spec fn soundfont_of(document: Toml) -> Option<Seq<char>> {
    match entry_of(document, "soundfont"@) {
        Some(Toml::Text(s)) => Some(s),
        _ => None,
    }
}

/// Why a text is no configuration.
#[derive(Debug)]
pub enum ConfigError {
    /// The text is not valid TOML.
    Parse(toml::de::Error),
    /// There is no table under `instr`.
    NoInstruments,
    /// There is no string under `soundfont`.
    NoSoundfont,
}

/// A configuration: a TOML document with a table of instruments and the
/// name of a sound font file.
#[derive(Debug)]
pub struct Config {
    document: toml::Value,
}

impl Config {
    /// What the document holds.
    pub closed spec fn model(&self) -> Toml {
        toml_model(self.document)
    }

    /// The document has its instruments and its sound font.
    pub closed spec fn wf(&self) -> bool {
        instruments_of(self.model()) is Some && soundfont_of(self.model()) is Some
    }

    /// Takes a document as a configuration. It must hold a table under
    /// `instr` and a string under `soundfont`; the errors come in this order.
    pub fn from_document(document: toml::Value) -> (r: Result<Config, ConfigError>)
        ensures
            match r {
                Ok(c) => c.wf() && c.model() == toml_model(document),
                Err(ConfigError::Parse(_)) => false,
                Err(ConfigError::NoInstruments) => instruments_of(toml_model(document)) is None,
                Err(ConfigError::NoSoundfont) => instruments_of(toml_model(document)) is Some
                    && soundfont_of(toml_model(document)) is None,
            },
    {
        let has_instruments = match value_get(&document, "instr") {
            Some(v) => value_is_table(v),
            None => false,
        };
        if !has_instruments {
            return Err(ConfigError::NoInstruments);
        }
        let has_soundfont = match value_get(&document, "soundfont") {
            Some(v) => value_as_str(v).is_some(),
            None => false,
        };
        if !has_soundfont {
            return Err(ConfigError::NoSoundfont);
        }
        Ok(Config { document })
    }

    /// Reads a configuration from a text. The text must be valid TOML, with
    /// a table under `instr` and a string under `soundfont`; the errors come
    /// in this order.
    pub fn parse(text: &str) -> (r: Result<Config, ConfigError>)
        ensures
            match r {
                Ok(c) => c.wf() && parsed_document(text@) == Some(c.model()),
                Err(ConfigError::Parse(_)) => parsed_document(text@) is None,
                Err(ConfigError::NoInstruments) => parsed_document(text@) matches Some(d)
                    && instruments_of(d) is None,
                Err(ConfigError::NoSoundfont) => parsed_document(text@) matches Some(d)
                    && instruments_of(d) is Some && soundfont_of(d) is None,
            },
    {
        match parse_document(text) {
            Ok(document) => Config::from_document(document),
            Err(e) => Err(ConfigError::Parse(e)),
        }
    }

    /// The name of the sound font file.
    pub fn soundfont(&self) -> (r: &str)
        requires
            self.wf(),
        ensures
            soundfont_of(self.model()) == Some(r@),
    {
        let entry = value_get(&self.document, "soundfont").unwrap();
        value_as_str(entry).unwrap()
    }

    /// The table of instruments: for a track's name, the settings of the
    /// instruments that play it.
    pub fn instruments(&self) -> (r: &toml::Value)
        requires
            self.wf(),
        ensures
            instruments_of(self.model()) == Some(toml_model(*r)),
    {
        value_get(&self.document, "instr").unwrap()
    }
}

} // verus!
