//! Two-colour gradients, as they're written in the taskbar configuration, mirroring Niri's
//! `active-gradient`. The colours themselves are whatever the toolkit makes of them, which is what
//! the type parameter of [`Gradient`] stands for.

use vstd::prelude::*;

use crate::text::{debug_form, debug_text, same_text, texts, words, words_of};

verus! {

/// The gradient as written in the taskbar configuration.
#[derive(Debug)]
pub struct Config {
    pub from: String,
    pub to: String,
    /// The colour space to interpolate in, in Niri's syntax: `srgb`, `srgb-linear`, `oklab`, or
    /// `oklch` followed optionally by `shorter hue`, `longer hue`, `increasing hue` or
    /// `decreasing hue`.
    pub space: Option<String>,
    /// How long one trip along the gradient takes while it cycles.
    pub cycle_ms: u32,
    /// How long the gradient takes to spread out when a drag starts, and to shrink away after.
    pub fade_ms: u32,
}

/// How long a trip along the gradient takes unless the configuration says otherwise.
pub fn default_cycle_ms() -> (ms: u32)
    ensures
        ms == 2000,
{
    2000
}

/// How long the gradient takes to come and go unless the configuration says otherwise.
pub fn default_fade_ms() -> (ms: u32)
    ensures
        ms == 250,
{
    250
}

/// A gradient between two colours.
#[derive(Debug, Clone, Copy, PartialEq)]
pub struct Gradient<C> {
    pub from: C,
    pub to: C,
    pub space: Space,
    pub cycle_ms: u32,
    pub fade_ms: u32,
}

/// The colour space colours are mixed in.
#[derive(Debug, Clone, Copy, PartialEq, Eq, Structural)]
pub enum Space {
    Srgb,
    SrgbLinear,
    Oklab,
    Oklch(Hue),
}

/// Which way round the hue wheel an OKLCH gradient goes.
#[derive(Debug, Clone, Copy, PartialEq, Eq, Structural)]
pub enum Hue {
    Shorter,
    Longer,
    Increasing,
    Decreasing,
}

impl Default for Space {
    fn default() -> (r: Self)
        ensures
            r == Space::Srgb,
    {
        Space::Srgb
    }
}

/// What went wrong with a colour that can't be read.
pub open spec fn colour_error(colour: Seq<char>) -> Seq<char> {
    "cannot parse colour "@ + debug_form(colour)
}

/// What went wrong with a colour space that isn't known.
pub open spec fn space_error(space: Seq<char>) -> Seq<char> {
    "unknown colour space "@ + debug_form(space)
}

/// The name of the colour space a gradient is mixed in.
pub open spec fn space_name(config: Config) -> Seq<char> {
    match config.space {
        Some(s) => s@,
        None => "srgb"@,
    }
}

/// The gradient that a configuration makes, given what came of reading its two colours, if it makes
/// one.
pub open spec fn gradient_of<C>(config: Config, from: Option<C>, to: Option<C>) -> Option<Gradient<C>> {
    match (from, to, space_of(words(space_name(config)))) {
        (Some(from), Some(to), Some(space)) => Some(
            Gradient { from, to, space, cycle_ms: config.cycle_ms, fade_ms: config.fade_ms },
        ),
        _ => None,
    }
}

/// What went wrong with a gradient that can't be made.
pub open spec fn gradient_error<C>(config: Config, from: Option<C>, to: Option<C>) -> Seq<char> {
    if from is None {
        colour_error(config.from@)
    } else if to is None {
        colour_error(config.to@)
    } else {
        space_error(space_name(config))
    }
}

impl<C> Gradient<C> {
    /// Makes a gradient from its configuration, given what came of reading its two colours: `None`
    /// stands for one that couldn't be.
    pub fn parse(config: &Config, from: Option<C>, to: Option<C>) -> (r: Result<Self, String>)
        ensures
            match r {
                Ok(gradient) => {
                    &&& from == Some(gradient.from)
                    &&& to == Some(gradient.to)
                    &&& space_of(words(space_name(*config))) == Some(gradient.space)
                    &&& gradient.cycle_ms == config.cycle_ms
                    &&& gradient.fade_ms == config.fade_ms
                },
                Err(e) => if from is None {
                    e@ == colour_error(config.from@)
                } else if to is None {
                    e@ == colour_error(config.to@)
                } else {
                    &&& space_of(words(space_name(*config))) is None
                    &&& e@ == space_error(space_name(*config))
                },
            },
            match r {
                Ok(gradient) => gradient_of(*config, from, to) == Some(gradient),
                Err(e) => {
                    &&& gradient_of(*config, from, to) is None
                    &&& e@ == gradient_error(*config, from, to)
                },
            },
    {
        let from = match from {
            Some(from) => from,
            None => return Err(bad_colour(config.from.as_str())),
        };
        let to = match to {
            Some(to) => to,
            None => return Err(bad_colour(config.to.as_str())),
        };
        let name: &str = match &config.space {
            Some(space) => space.as_str(),
            None => "srgb",
        };
        match Space::parse(name) {
            Ok(space) => Ok(
                Gradient { from, to, space, cycle_ms: config.cycle_ms, fade_ms: config.fade_ms },
            ),
            Err(e) => Err(e),
        }
    }
}

/// Says what's wrong with a colour that can't be read.
fn bad_colour(colour: &str) -> (r: String)
    ensures
        r@ == colour_error(colour@),
{
    let mut r: String = "cannot parse colour ".to_owned();
    r.append(debug_text(colour).as_str());
    r
}

/// The words for going a particular way round the hue wheel.
pub open spec fn oklch_words(way: Seq<char>) -> Seq<Seq<char>> {
    seq!["oklch"@, way, "hue"@]
}

/// The colour space that the given words name: `srgb`, `srgb-linear`, `oklab`, or `oklch` followed
/// optionally by `shorter hue`, `longer hue`, `increasing hue` or `decreasing hue`.
pub open spec fn space_of(words: Seq<Seq<char>>) -> Option<Space> {
    if words == seq!["srgb"@] {
        Some(Space::Srgb)
    } else if words == seq!["srgb-linear"@] {
        Some(Space::SrgbLinear)
    } else if words == seq!["oklab"@] {
        Some(Space::Oklab)
    } else if words == seq!["oklch"@] || words == oklch_words("shorter"@) {
        Some(Space::Oklch(Hue::Shorter))
    } else if words == oklch_words("longer"@) {
        Some(Space::Oklch(Hue::Longer))
    } else if words == oklch_words("increasing"@) {
        Some(Space::Oklch(Hue::Increasing))
    } else if words == oklch_words("decreasing"@) {
        Some(Space::Oklch(Hue::Decreasing))
    } else {
        None
    }
}

impl Space {
    /// Parses a colour space in Niri's syntax: `srgb`, `srgb-linear`, `oklab`, or `oklch`
    /// followed optionally by `shorter hue`, `longer hue`, `increasing hue` or `decreasing hue`.
    pub fn parse(s: &str) -> (r: Result<Self, String>)
        ensures
            match space_of(words(s@)) {
                Some(space) => r == Ok::<Space, String>(space),
                None => r is Err && r->Err_0@ == space_error(s@),
            },
    {
        let words = words_of(s);
        let ghost said = texts(words@);
        let found: Option<Space> = if words.len() == 1 {
            let name: &str = words[0].as_str();
            if same_text(name, "srgb") {
                Some(Space::Srgb)
            } else if same_text(name, "srgb-linear") {
                Some(Space::SrgbLinear)
            } else if same_text(name, "oklab") {
                Some(Space::Oklab)
            } else if same_text(name, "oklch") {
                Some(Space::Oklch(Hue::Shorter))
            } else {
                None
            }
        } else if words.len() == 3 && same_text(words[0].as_str(), "oklch") && same_text(
            words[2].as_str(),
            "hue",
        ) {
            let way: &str = words[1].as_str();
            if same_text(way, "shorter") {
                Some(Space::Oklch(Hue::Shorter))
            } else if same_text(way, "longer") {
                Some(Space::Oklch(Hue::Longer))
            } else if same_text(way, "increasing") {
                Some(Space::Oklch(Hue::Increasing))
            } else if same_text(way, "decreasing") {
                Some(Space::Oklch(Hue::Decreasing))
            } else {
                None
            }
        } else {
            None
        };
        proof {
            lemma_space_of(said);
        }
        match found {
            Some(space) => Ok(space),
            None => {
                let mut e: String = "unknown colour space ".to_owned();
                e.append(debug_text(s).as_str());
                Err(e)
            },
        }
    }
}

/// The words that name a colour space, one by one.
proof fn lemma_space_of(words: Seq<Seq<char>>)
    ensures
        space_of(words) == if words.len() == 1 {
            if words[0] == "srgb"@ {
                Some(Space::Srgb)
            } else if words[0] == "srgb-linear"@ {
                Some(Space::SrgbLinear)
            } else if words[0] == "oklab"@ {
                Some(Space::Oklab)
            } else if words[0] == "oklch"@ {
                Some(Space::Oklch(Hue::Shorter))
            } else {
                None
            }
        } else if words.len() == 3 && words[0] == "oklch"@ && words[2] == "hue"@ {
            if words[1] == "shorter"@ {
                Some(Space::Oklch(Hue::Shorter))
            } else if words[1] == "longer"@ {
                Some(Space::Oklch(Hue::Longer))
            } else if words[1] == "increasing"@ {
                Some(Space::Oklch(Hue::Increasing))
            } else if words[1] == "decreasing"@ {
                Some(Space::Oklch(Hue::Decreasing))
            } else {
                None
            }
        } else {
            None
        },
{
    if words.len() == 1 {
        assert(words =~= seq![words[0]]);
        assert(seq!["srgb"@][0] == "srgb"@);
        assert(seq!["srgb-linear"@][0] == "srgb-linear"@);
        assert(seq!["oklab"@][0] == "oklab"@);
        assert(seq!["oklch"@][0] == "oklch"@);
    } else if words.len() == 3 {
        assert(words =~= seq![words[0], words[1], words[2]]);
        assert forall|way: Seq<char>|
            words == #[trigger] oklch_words(way) implies words[0] == "oklch"@ && words[1] == way && words[2]
            == "hue"@ by {
            let named = oklch_words(way);
            assert(named[0] == "oklch"@ && named[1] == way && named[2] == "hue"@);
        }
    }
}

/// What a colour space is called in full.
pub open spec fn full_name(space: Space) -> Seq<Seq<char>> {
    match space {
        Space::Srgb => seq!["srgb"@],
        Space::SrgbLinear => seq!["srgb-linear"@],
        Space::Oklab => seq!["oklab"@],
        Space::Oklch(Hue::Shorter) => seq!["oklch"@, "shorter"@, "hue"@],
        Space::Oklch(Hue::Longer) => seq!["oklch"@, "longer"@, "hue"@],
        Space::Oklch(Hue::Increasing) => seq!["oklch"@, "increasing"@, "hue"@],
        Space::Oklch(Hue::Decreasing) => seq!["oklch"@, "decreasing"@, "hue"@],
    }
}

/// A colour space is known by its full name and no other, but for the shorter way round the hue wheel,
/// which goes without saying.
pub proof fn law_spaces_go_by_their_names(words: Seq<Seq<char>>, space: Space)
    ensures
        space_of(words) == Some(space) <==> words == full_name(space) || (space == Space::Oklch(
            Hue::Shorter,
        ) && words == seq!["oklch"@]),
{
    reveal_strlit("srgb");
    reveal_strlit("srgb-linear");
    reveal_strlit("oklab");
    reveal_strlit("oklch");
    reveal_strlit("shorter");
    reveal_strlit("longer");
    reveal_strlit("increasing");
    reveal_strlit("decreasing");
    reveal_strlit("hue");
    assert("srgb"@.len() == 4);
    assert("srgb-linear"@.len() == 11);
    assert("oklab"@.len() == 5 && "oklab"@[3] == 'a');
    assert("oklch"@.len() == 5 && "oklch"@[3] == 'c');
    assert("shorter"@.len() == 7);
    assert("longer"@.len() == 6);
    assert("increasing"@.len() == 10 && "increasing"@[0] == 'i');
    assert("decreasing"@.len() == 10 && "decreasing"@[0] == 'd');
    lemma_space_of(words);
    lemma_space_of(full_name(space));
    let name = full_name(space);
    if name.len() == 1 && words == name {
        assert(words[0] == name[0]);
    }
    if words == name && name.len() == 3 {
        assert(words[0] == name[0] && words[1] == name[1] && words[2] == name[2]);
    }
    if words == seq!["oklch"@] {
        assert(words[0] == "oklch"@);
    }
    if words.len() == 1 {
        assert(words =~= seq![words[0]]);
    }
    if words.len() == 3 {
        assert(words =~= seq![words[0], words[1], words[2]]);
    }
}

/// A gradient that names no colour space is mixed in sRGB.
pub proof fn law_gradients_are_srgb_unless_named(config: Config)
    ensures
        config.space is None ==> space_of(seq![space_name(config)]) == Some(Space::Srgb),
        config.space is Some ==> space_name(config) == config.space->0@,
{
    if config.space is None {
        law_spaces_go_by_their_names(seq![space_name(config)], Space::Srgb);
    }
}

/// A gradient is read just where both of its colours were and its space is known, and takes its
/// durations from the configuration. What's wrong is told of the first colour first, then of the
/// second, then of the space.
pub proof fn law_gradients_need_all_their_parts<C>(config: Config, from: Option<C>, to: Option<C>)
    ensures
        ({
            let space = space_of(words(space_name(config)));
            let r = gradient_of(config, from, to);
            &&& r is Some <==> from is Some && to is Some && space is Some
            &&& r is Some ==> {
                &&& r->0.from == from->0
                &&& r->0.to == to->0
                &&& r->0.space == space->0
                &&& r->0.cycle_ms == config.cycle_ms
                &&& r->0.fade_ms == config.fade_ms
            }
            &&& from is None ==> gradient_error(config, from, to) == "cannot parse colour "@
                + debug_form(config.from@)
            &&& from is Some && to is None ==> gradient_error(config, from, to)
                == "cannot parse colour "@ + debug_form(config.to@)
            &&& from is Some && to is Some ==> gradient_error(config, from, to)
                == "unknown colour space "@ + debug_form(space_name(config))
        }),
{
}

} // verus!
