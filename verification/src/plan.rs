//! The rendering plan: which instrument settings play which track, and what
//! to warn of.

use vstd::prelude::*;
use crate::config::{entry_of, setting_of, toml_model, InstrumentSetting, SettingError, Toml};
use crate::config::{value_as_array, value_get};
use crate::player::{tracks_view, PlayerTrack, PlayerTrackView};

verus! {

/// One rendering to make: the track, the position of the setting among the
/// settings under the track's name, and the setting itself.
#[derive(Clone, Copy, Debug, PartialEq, Eq, Structural)]
pub struct RenderJob {
    pub track: usize,
    pub index: usize,
    pub setting: InstrumentSetting,
}

/// Something that was skipped.
#[derive(Clone, Copy, Debug, PartialEq, Eq, Structural)]
pub enum Warning {
    /// A named track other than the first has no array of settings under
    /// its name.
    NoInstruments { track: usize },
    /// A setting under the track's name cannot be read.
    BadSetting { track: usize, index: usize, error: SettingError },
}

/// The renderings to make, and the warnings, each in the order of the
/// tracks and of the settings under each track's name.
#[derive(Clone, Debug, PartialEq, Eq)]
pub struct RenderPlan {
    pub jobs: Vec<RenderJob>,
    pub warnings: Vec<Warning>,
}

/// No setting matched any track, so there is nothing to render. The
/// warnings are still there.
#[derive(Clone, Debug, PartialEq, Eq)]
pub struct NoOutput {
    pub warnings: Vec<Warning>,
}

/// The settings for a track: the items of the array under the track's name,
/// where the track has a name and the table such an array.
pub open spec fn settings_for(instruments: Toml, name: Option<Seq<char>>) -> Option<Seq<Toml>> {
    match name {
        Some(n) => match entry_of(instruments, n) {
            Some(Toml::Array(items)) => Some(items),
            _ => None,
        },
        None => None,
    }
}

/// The renderings that the first `upto` settings of a track give: one for
/// each setting that can be read.
pub open spec fn setting_jobs(track: nat, settings: Seq<Toml>, upto: nat) -> Seq<RenderJob>
    decreases upto,
{
    if upto == 0 {
        Seq::empty()
    } else {
        let before = setting_jobs(track, settings, (upto - 1) as nat);
        match setting_of(settings[upto - 1]) {
            Ok(setting) => before.push(
                RenderJob { track: track as usize, index: (upto - 1) as usize, setting },
            ),
            Err(_) => before,
        }
    }
}

/// The warnings that the first `upto` settings of a track give: one for each
/// setting that cannot be read.
pub open spec fn setting_warnings(track: nat, settings: Seq<Toml>, upto: nat) -> Seq<Warning>
    decreases upto,
{
    if upto == 0 {
        Seq::empty()
    } else {
        let before = setting_warnings(track, settings, (upto - 1) as nat);
        match setting_of(settings[upto - 1]) {
            Ok(_) => before,
            Err(error) => before.push(
                Warning::BadSetting { track: track as usize, index: (upto - 1) as usize, error },
            ),
        }
    }
}

/// The renderings that the first `upto` tracks give.
pub open spec fn plan_jobs(
    tracks: Seq<PlayerTrackView>,
    instruments: Toml,
    upto: nat,
) -> Seq<RenderJob>
    decreases upto,
{
    if upto == 0 {
        Seq::empty()
    } else {
        let before = plan_jobs(tracks, instruments, (upto - 1) as nat);
        match settings_for(instruments, tracks[upto - 1].name) {
            Some(settings) => before + setting_jobs((upto - 1) as nat, settings, settings.len()),
            None => before,
        }
    }
}

/// The warnings that the first `upto` tracks give. A track without a name
/// gives none, and the first track gives none for having no settings.
pub open spec fn plan_warnings(
    tracks: Seq<PlayerTrackView>,
    instruments: Toml,
    upto: nat,
) -> Seq<Warning>
    decreases upto,
{
    if upto == 0 {
        Seq::empty()
    } else {
        let before = plan_warnings(tracks, instruments, (upto - 1) as nat);
        let track = (upto - 1) as nat;
        match settings_for(instruments, tracks[upto - 1].name) {
            Some(settings) => before + setting_warnings(track, settings, settings.len()),
            None => if tracks[upto - 1].name is Some && track != 0 {
                before.push(Warning::NoInstruments { track: track as usize })
            } else {
                before
            },
        }
    }
}

/// All renderings to make for the tracks.
pub open spec fn all_jobs(tracks: Seq<PlayerTrackView>, instruments: Toml) -> Seq<RenderJob> {
    plan_jobs(tracks, instruments, tracks.len())
}

/// All warnings to give for the tracks.
pub open spec fn all_warnings(tracks: Seq<PlayerTrackView>, instruments: Toml) -> Seq<Warning> {
    plan_warnings(tracks, instruments, tracks.len())
}

/// No track has a name under which the table of instruments holds
/// anything.
pub open spec fn no_match(tracks: Seq<PlayerTrackView>, instruments: Toml) -> bool {
    forall|i: int|
        0 <= i < tracks.len() ==> ((#[trigger] tracks[i]).name matches Some(n) ==> entry_of(
            instruments,
            n,
        ) is None)
}

/// Where no track has a name under which the table of instruments holds
/// anything, there is nothing to render.
pub proof fn lemma_no_match_no_jobs(tracks: Seq<PlayerTrackView>, instruments: Toml)
    requires
        no_match(tracks, instruments),
    ensures
        all_jobs(tracks, instruments).len() == 0,
{
    lemma_no_match_upto(tracks, instruments, tracks.len());
}

proof fn lemma_no_match_upto(tracks: Seq<PlayerTrackView>, instruments: Toml, upto: nat)
    requires
        upto <= tracks.len(),
        no_match(tracks, instruments),
    ensures
        plan_jobs(tracks, instruments, upto).len() == 0,
    decreases upto,
{
    if upto > 0 {
        lemma_no_match_upto(tracks, instruments, (upto - 1) as nat);
        assert(settings_for(instruments, tracks[upto - 1].name) is None);
    }
}

/// Matches tracks with instrument settings: for each named track, the
/// settings in the array under its name. There is nothing to render, which
/// is an error, where no setting can be read for any track; so it is where
/// the table holds nothing under the name of any track.
pub fn plan(
    tracks: &Vec<PlayerTrack>,
    instruments: &toml::Value,
) -> (r: Result<RenderPlan, NoOutput>)
    ensures
        r is Err <==> all_jobs(tracks_view(tracks@), toml_model(*instruments)).len() == 0,
        no_match(tracks_view(tracks@), toml_model(*instruments)) ==> r is Err,
        match r {
            Ok(p) => p.jobs@ == all_jobs(tracks_view(tracks@), toml_model(*instruments))
                && p.warnings@ == all_warnings(tracks_view(tracks@), toml_model(*instruments)),
            Err(e) => e.warnings@ == all_warnings(tracks_view(tracks@), toml_model(*instruments)),
        },
{
    let ghost views = tracks_view(tracks@);
    let ghost table = toml_model(*instruments);
    proof {
        if no_match(views, table) {
            lemma_no_match_no_jobs(views, table);
        }
    }
    let mut jobs: Vec<RenderJob> = Vec::new();
    let mut warnings: Vec<Warning> = Vec::new();
    let mut track: usize = 0;
    while track < tracks.len()
        invariant
            views == tracks_view(tracks@),
            table == toml_model(*instruments),
            track <= tracks@.len(),
            jobs@ == plan_jobs(views, table, track as nat),
            warnings@ == plan_warnings(views, table, track as nat),
        decreases tracks@.len() - track,
    {
        let ghost jobs_before = jobs@;
        let ghost warnings_before = warnings@;
        assert(views[track as int] == tracks@[track as int]@);
        let settings = match &tracks[track].name {
            Some(name) => match value_get(instruments, name.as_str()) {
                Some(entry) => value_as_array(entry),
                None => None,
            },
            None => None,
        };
        match settings {
            Some(items) => {
                let ghost models = settings_for(table, views[track as int].name).unwrap();
                let mut index: usize = 0;
                while index < items.len()
                    invariant
                        index <= items@.len(),
                        models.len() == items@.len(),
                        forall|i: int|
                            0 <= i < items@.len() ==> models[i] == toml_model(
                                #[trigger] items@[i],
                            ),
                        jobs@ == jobs_before + setting_jobs(track as nat, models, index as nat),
                        warnings@ == warnings_before + setting_warnings(
                            track as nat,
                            models,
                            index as nat,
                        ),
                    decreases items@.len() - index,
                {
                    match InstrumentSetting::from_toml(&items[index]) {
                        Ok(setting) => {
                            jobs.push(RenderJob { track, index, setting });
                        },
                        Err(error) => {
                            warnings.push(Warning::BadSetting { track, index, error });
                        },
                    }
                    index = index + 1;
                    assert(jobs@ =~= jobs_before + setting_jobs(
                        track as nat,
                        models,
                        index as nat,
                    ));
                    assert(warnings@ =~= warnings_before + setting_warnings(
                        track as nat,
                        models,
                        index as nat,
                    ));
                }
            },
            None => {
                if tracks[track].name.is_some() && track != 0 {
                    warnings.push(Warning::NoInstruments { track });
                }
            },
        }
        track = track + 1;
    }
    if jobs.len() == 0 {
        Err(NoOutput { warnings })
    } else {
        Ok(RenderPlan { jobs, warnings })
    }
}

} // verus!
