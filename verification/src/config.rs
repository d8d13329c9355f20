//! Track and race profiles: where the live timing of a track is served and
//! which column of its grid holds which datum.
use vstd::prelude::*;
use crate::text::str_eq;

verus! {

/// Where to connect for the live timing of one track.
pub struct TrackConfig {
    pub url_track: &'static str,
}

/// Which grid column (`"c<n>"`) holds each datum in one kind of session;
/// `"not-present"` where the session shows no such column.
#[derive(Default)]
pub struct RaceConfig {
    pub kart: &'static str,
    pub driver: &'static str,
    pub position: &'static str,
    pub best: &'static str,
    pub last: &'static str,
    pub gap: &'static str,
    pub lap: &'static str,
    pub ontrack: &'static str,
    pub pit: &'static str,
}

/// The column names of a race profile, as text.
pub struct Columns {
    pub kart: Seq<char>,
    pub driver: Seq<char>,
    pub position: Seq<char>,
    pub best: Seq<char>,
    pub last: Seq<char>,
    pub gap: Seq<char>,
    pub lap: Seq<char>,
    pub ontrack: Seq<char>,
    pub pit: Seq<char>,
}

impl View for RaceConfig {
    type V = Columns;

    open spec fn view(&self) -> Columns {
        Columns {
            kart: self.kart@,
            driver: self.driver@,
            position: self.position@,
            best: self.best@,
            last: self.last@,
            gap: self.gap@,
            lap: self.lap@,
            ontrack: self.ontrack@,
            pit: self.pit@,
        }
    }
}

/// The profiles that name a track and a kind of session.
pub open spec fn known_profile(p: Seq<char>) -> bool {
    ||| p == "LIGNANO-PRACTICE"@
    ||| p == "LIGNANO-RACE"@
    ||| p == "SANTOS-PRACTICE"@
    ||| p == "SANTOS-RACE"@
    ||| p == "CAMPILLOS-PRACTICE"@
    ||| p == "CAMPILLOS-RACE"@
    ||| p == "CAMPILLOS-8HORAS-FP"@
    ||| p == "CAMPILLOS-30HORAS"@
    ||| p == "ARIZA-PRACTICE"@
    ||| p == "ARIZA-RACE"@
}

/// The live timing address of the track of a profile.
pub open spec fn track_url(p: Seq<char>) -> Option<Seq<char>> {
    if p == "LIGNANO-PRACTICE"@ || p == "LIGNANO-RACE"@ {
        Some("ws://www.apex-timing.com:8182/"@)
    } else if p == "SANTOS-PRACTICE"@ || p == "SANTOS-RACE"@ {
        Some("ws://www.apex-timing.com:8092/"@)
    } else if p == "CAMPILLOS-PRACTICE"@ || p == "CAMPILLOS-RACE"@ || p == "CAMPILLOS-8HORAS-FP"@
        || p == "CAMPILLOS-30HORAS"@ {
        Some("ws://www.apex-timing.com:8802/"@)
    } else if p == "ARIZA-PRACTICE"@ || p == "ARIZA-RACE"@ {
        Some("ws://www.apex-timing.com:8972/"@)
    } else {
        None
    }
}

pub open spec fn columns(
    kart: &str,
    driver: &str,
    position: &str,
    best: &str,
    last: &str,
    gap: &str,
    lap: &str,
    ontrack: &str,
    pit: &str,
) -> Columns {
    Columns {
        kart: kart@,
        driver: driver@,
        position: position@,
        best: best@,
        last: last@,
        gap: gap@,
        lap: lap@,
        ontrack: ontrack@,
        pit: pit@,
    }
}

/// The grid columns of the session kind of a profile.
pub open spec fn race_columns(p: Seq<char>) -> Option<Columns> {
    if p == "LIGNANO-PRACTICE"@ || p == "SANTOS-PRACTICE"@ {
        Some(columns("c5", "c6", "c4", "c9", "c10", "c11", "c12", "c13", "not-present"))
    } else if p == "LIGNANO-RACE"@ {
        Some(columns("c3", "c4", "c2", "c8", "c6", "c7", "c12", "c9", "c10"))
    } else if p == "SANTOS-RACE"@ {
        Some(columns("c3", "c4", "c2", "c9", "c5", "c7", "c6", "c11", "c12"))
    } else if p == "CAMPILLOS-PRACTICE"@ {
        Some(columns("c4", "c5", "c3", "c10", "c9", "c11", "c13", "not-present", "not-present"))
    } else if p == "CAMPILLOS-RACE"@ {
        Some(columns("c3", "c2", "c1", "c10", "c7", "c8", "c12", "not-present", "not-present"))
    } else if p == "CAMPILLOS-8HORAS-FP"@ {
        Some(columns("c6", "c2", "c1", "c7", "c5", "c4", "c12", "not-present", "c3"))
    } else if p == "CAMPILLOS-30HORAS"@ {
        Some(columns("c4", "c5", "c2", "c12", "c10", "c11", "c6", "c13", "c14"))
    } else if p == "ARIZA-PRACTICE"@ || p == "ARIZA-RACE"@ {
        Some(columns("c4", "c5", "c3", "c7", "c6", "c8", "c10", "not-present", "not-present"))
    } else {
        None
    }
}

/// Whether a profile is one of those that `TrackConfig::from_profile` and
/// `RaceConfig::from_profile` know.
pub fn is_known_profile(profile: &str) -> (r: bool)
    ensures
        r == known_profile(profile@),
{
    str_eq(profile, "LIGNANO-PRACTICE") || str_eq(profile, "LIGNANO-RACE") || str_eq(
        profile,
        "SANTOS-PRACTICE",
    ) || str_eq(profile, "SANTOS-RACE") || str_eq(profile, "CAMPILLOS-PRACTICE") || str_eq(
        profile,
        "CAMPILLOS-RACE",
    ) || str_eq(profile, "CAMPILLOS-8HORAS-FP") || str_eq(profile, "CAMPILLOS-30HORAS")
        || str_eq(profile, "ARIZA-PRACTICE") || str_eq(profile, "ARIZA-RACE")
}

#[verifier::external_type_specification]
#[verifier::external_body]
pub struct ExUrl(url::Url);

#[verifier::external_type_specification]
#[verifier::external_body]
pub struct ExUrlParseError(url::ParseError);

/// Whether `url::Url::parse` accepts a text.
pub uninterp spec fn url_accepts(s: Seq<char>) -> bool;

/// Parses a URL with `url::Url::parse` (WHATWG URL parsing). Claimed: the
/// result is `Ok` exactly where `url_accepts` holds of the text, a function
/// of the text alone; nothing is claimed of the parsed URL, which stays
/// opaque here.
#[verifier::external_body]
fn parse_url(s: &str) -> (r: Result<url::Url, url::ParseError>)
    ensures
        r is Ok <==> url_accepts(s@),
{
    url::Url::parse(s)
}

/// The live timing address of a track is not a valid URL.
#[derive(Debug)]
pub struct InvalidUrl;

impl TrackConfig {
    /// The track of a profile.
    pub fn from_profile(profile: &str) -> (r: TrackConfig)
        requires
            known_profile(profile@),
        ensures
            track_url(profile@) == Some(r.url_track@),
    {
        if str_eq(profile, "LIGNANO-PRACTICE") || str_eq(profile, "LIGNANO-RACE") {
            TrackConfig { url_track: "ws://www.apex-timing.com:8182/" }
        } else if str_eq(profile, "SANTOS-PRACTICE") || str_eq(profile, "SANTOS-RACE") {
            TrackConfig { url_track: "ws://www.apex-timing.com:8092/" }
        } else if str_eq(profile, "CAMPILLOS-PRACTICE") || str_eq(profile, "CAMPILLOS-RACE")
            || str_eq(profile, "CAMPILLOS-8HORAS-FP") || str_eq(profile, "CAMPILLOS-30HORAS") {
            TrackConfig { url_track: "ws://www.apex-timing.com:8802/" }
        } else {
            TrackConfig { url_track: "ws://www.apex-timing.com:8972/" }
        }
    }

    pub fn url_track(&self) -> (r: &'static str)
        ensures
            r@ == self.url_track@,
    {
        self.url_track
    }

    /// The live timing address parsed as a URL, to connect to.
    pub fn live_timing_url(&self) -> (r: Result<url::Url, InvalidUrl>)
        ensures
            r is Ok <==> url_accepts(self.url_track@),
    {
        match parse_url(self.url_track) {
            Ok(u) => Ok(u),
            Err(_) => Err(InvalidUrl),
        }
    }
}

impl RaceConfig {
    fn make(
        kart: &'static str,
        driver: &'static str,
        position: &'static str,
        best: &'static str,
        last: &'static str,
        gap: &'static str,
        lap: &'static str,
        ontrack: &'static str,
        pit: &'static str,
    ) -> (r: RaceConfig)
        ensures
            r@ == columns(kart, driver, position, best, last, gap, lap, ontrack, pit),
    {
        RaceConfig { kart, driver, position, best, last, gap, lap, ontrack, pit }
    }

    /// The grid columns of the session kind of a profile.
    pub fn from_profile(profile: &str) -> (r: RaceConfig)
        requires
            known_profile(profile@),
        ensures
            race_columns(profile@) == Some(r@),
    {
        if str_eq(profile, "LIGNANO-PRACTICE") || str_eq(profile, "SANTOS-PRACTICE") {
            Self::make("c5", "c6", "c4", "c9", "c10", "c11", "c12", "c13", "not-present")
        } else if str_eq(profile, "LIGNANO-RACE") {
            Self::make("c3", "c4", "c2", "c8", "c6", "c7", "c12", "c9", "c10")
        } else if str_eq(profile, "SANTOS-RACE") {
            Self::make("c3", "c4", "c2", "c9", "c5", "c7", "c6", "c11", "c12")
        } else if str_eq(profile, "CAMPILLOS-PRACTICE") {
            Self::make("c4", "c5", "c3", "c10", "c9", "c11", "c13", "not-present", "not-present")
        } else if str_eq(profile, "CAMPILLOS-RACE") {
            Self::make("c3", "c2", "c1", "c10", "c7", "c8", "c12", "not-present", "not-present")
        } else if str_eq(profile, "CAMPILLOS-8HORAS-FP") {
            Self::make("c6", "c2", "c1", "c7", "c5", "c4", "c12", "not-present", "c3")
        } else if str_eq(profile, "CAMPILLOS-30HORAS") {
            Self::make("c4", "c5", "c2", "c12", "c10", "c11", "c6", "c13", "c14")
        } else {
            Self::make("c4", "c5", "c3", "c7", "c6", "c8", "c10", "not-present", "not-present")
        }
    }

    pub fn kart(&self) -> (r: &'static str)
        ensures
            r@ == self.kart@,
    {
        self.kart
    }

    pub fn driver(&self) -> (r: &'static str)
        ensures
            r@ == self.driver@,
    {
        self.driver
    }

    pub fn position(&self) -> (r: &'static str)
        ensures
            r@ == self.position@,
    {
        self.position
    }

    pub fn best(&self) -> (r: &'static str)
        ensures
            r@ == self.best@,
    {
        self.best
    }

    pub fn last(&self) -> (r: &'static str)
        ensures
            r@ == self.last@,
    {
        self.last
    }

    pub fn gap(&self) -> (r: &'static str)
        ensures
            r@ == self.gap@,
    {
        self.gap
    }

    pub fn lap(&self) -> (r: &'static str)
        ensures
            r@ == self.lap@,
    {
        self.lap
    }

    pub fn ontrack(&self) -> (r: &'static str)
        ensures
            r@ == self.ontrack@,
    {
        self.ontrack
    }

    pub fn pit(&self) -> (r: &'static str)
        ensures
            r@ == self.pit@,
    {
        self.pit
    }
}

/// A profile names a track exactly when it names a kind of session: the
/// profiles that `TrackConfig::from_profile` accepts are those that
/// `RaceConfig::from_profile` accepts.
pub proof fn lemma_profiles_agree(p: Seq<char>)
    ensures
        track_url(p) is Some <==> known_profile(p),
        race_columns(p) is Some <==> known_profile(p),
{
}

/// A profile belongs to the track `t` when it starts with `t` and a `'-'`.
pub open spec fn names_track(p: Seq<char>, t: Seq<char>) -> bool {
    p.len() > t.len() && p.subrange(0, t.len() as int) == t && p[t.len() as int] == '-'
}

/// Every known profile belongs to one of the four tracks, and its live
/// timing address is that of its track: Lignano on port 8182, Santos on
/// 8092, Campillos on 8802, Ariza on 8972.
pub proof fn lemma_track_address(p: Seq<char>)
    requires
        known_profile(p),
    ensures
        names_track(p, "LIGNANO"@) || names_track(p, "SANTOS"@) || names_track(p, "CAMPILLOS"@)
            || names_track(p, "ARIZA"@),
        names_track(p, "LIGNANO"@) ==> track_url(p) == Some("ws://www.apex-timing.com:8182/"@),
        names_track(p, "SANTOS"@) ==> track_url(p) == Some("ws://www.apex-timing.com:8092/"@),
        names_track(p, "CAMPILLOS"@) ==> track_url(p) == Some("ws://www.apex-timing.com:8802/"@),
        names_track(p, "ARIZA"@) ==> track_url(p) == Some("ws://www.apex-timing.com:8972/"@),
{
    reveal_strlit("LIGNANO-PRACTICE");
    reveal_strlit("LIGNANO-RACE");
    reveal_strlit("SANTOS-PRACTICE");
    reveal_strlit("SANTOS-RACE");
    reveal_strlit("CAMPILLOS-PRACTICE");
    reveal_strlit("CAMPILLOS-RACE");
    reveal_strlit("CAMPILLOS-8HORAS-FP");
    reveal_strlit("CAMPILLOS-30HORAS");
    reveal_strlit("ARIZA-PRACTICE");
    reveal_strlit("ARIZA-RACE");
    reveal_strlit("LIGNANO");
    reveal_strlit("SANTOS");
    reveal_strlit("CAMPILLOS");
    reveal_strlit("ARIZA");
    reveal_strlit("ws://www.apex-timing.com:8182/");
    reveal_strlit("ws://www.apex-timing.com:8092/");
    reveal_strlit("ws://www.apex-timing.com:8802/");
    reveal_strlit("ws://www.apex-timing.com:8972/");
    if p == "LIGNANO-PRACTICE"@ {
        assert(p.subrange(0, "LIGNANO"@.len() as int) =~= "LIGNANO"@);
        assert(!names_track(p, "SANTOS"@)) by {
            if p.len() > "SANTOS"@.len() {
                assert(p.subrange(0, "SANTOS"@.len() as int)[0] != "SANTOS"@[0] || p.subrange(0, "SANTOS"@.len() as int)[1] != "SANTOS"@[1]);
            }
        }
        assert(!names_track(p, "CAMPILLOS"@)) by {
            if p.len() > "CAMPILLOS"@.len() {
                assert(p.subrange(0, "CAMPILLOS"@.len() as int)[0] != "CAMPILLOS"@[0] || p.subrange(0, "CAMPILLOS"@.len() as int)[1] != "CAMPILLOS"@[1]);
            }
        }
        assert(!names_track(p, "ARIZA"@)) by {
            if p.len() > "ARIZA"@.len() {
                assert(p.subrange(0, "ARIZA"@.len() as int)[0] != "ARIZA"@[0] || p.subrange(0, "ARIZA"@.len() as int)[1] != "ARIZA"@[1]);
            }
        }
    }
    if p == "LIGNANO-RACE"@ {
        assert(p.subrange(0, "LIGNANO"@.len() as int) =~= "LIGNANO"@);
        assert(!names_track(p, "SANTOS"@)) by {
            if p.len() > "SANTOS"@.len() {
                assert(p.subrange(0, "SANTOS"@.len() as int)[0] != "SANTOS"@[0] || p.subrange(0, "SANTOS"@.len() as int)[1] != "SANTOS"@[1]);
            }
        }
        assert(!names_track(p, "CAMPILLOS"@)) by {
            if p.len() > "CAMPILLOS"@.len() {
                assert(p.subrange(0, "CAMPILLOS"@.len() as int)[0] != "CAMPILLOS"@[0] || p.subrange(0, "CAMPILLOS"@.len() as int)[1] != "CAMPILLOS"@[1]);
            }
        }
        assert(!names_track(p, "ARIZA"@)) by {
            if p.len() > "ARIZA"@.len() {
                assert(p.subrange(0, "ARIZA"@.len() as int)[0] != "ARIZA"@[0] || p.subrange(0, "ARIZA"@.len() as int)[1] != "ARIZA"@[1]);
            }
        }
    }
    if p == "SANTOS-PRACTICE"@ {
        assert(p.subrange(0, "SANTOS"@.len() as int) =~= "SANTOS"@);
        assert(!names_track(p, "LIGNANO"@)) by {
            if p.len() > "LIGNANO"@.len() {
                assert(p.subrange(0, "LIGNANO"@.len() as int)[0] != "LIGNANO"@[0] || p.subrange(0, "LIGNANO"@.len() as int)[1] != "LIGNANO"@[1]);
            }
        }
        assert(!names_track(p, "CAMPILLOS"@)) by {
            if p.len() > "CAMPILLOS"@.len() {
                assert(p.subrange(0, "CAMPILLOS"@.len() as int)[0] != "CAMPILLOS"@[0] || p.subrange(0, "CAMPILLOS"@.len() as int)[1] != "CAMPILLOS"@[1]);
            }
        }
        assert(!names_track(p, "ARIZA"@)) by {
            if p.len() > "ARIZA"@.len() {
                assert(p.subrange(0, "ARIZA"@.len() as int)[0] != "ARIZA"@[0] || p.subrange(0, "ARIZA"@.len() as int)[1] != "ARIZA"@[1]);
            }
        }
    }
    if p == "SANTOS-RACE"@ {
        assert(p.subrange(0, "SANTOS"@.len() as int) =~= "SANTOS"@);
        assert(!names_track(p, "LIGNANO"@)) by {
            if p.len() > "LIGNANO"@.len() {
                assert(p.subrange(0, "LIGNANO"@.len() as int)[0] != "LIGNANO"@[0] || p.subrange(0, "LIGNANO"@.len() as int)[1] != "LIGNANO"@[1]);
            }
        }
        assert(!names_track(p, "CAMPILLOS"@)) by {
            if p.len() > "CAMPILLOS"@.len() {
                assert(p.subrange(0, "CAMPILLOS"@.len() as int)[0] != "CAMPILLOS"@[0] || p.subrange(0, "CAMPILLOS"@.len() as int)[1] != "CAMPILLOS"@[1]);
            }
        }
        assert(!names_track(p, "ARIZA"@)) by {
            if p.len() > "ARIZA"@.len() {
                assert(p.subrange(0, "ARIZA"@.len() as int)[0] != "ARIZA"@[0] || p.subrange(0, "ARIZA"@.len() as int)[1] != "ARIZA"@[1]);
            }
        }
    }
    if p == "CAMPILLOS-PRACTICE"@ {
        assert(p.subrange(0, "CAMPILLOS"@.len() as int) =~= "CAMPILLOS"@);
        assert(!names_track(p, "LIGNANO"@)) by {
            if p.len() > "LIGNANO"@.len() {
                assert(p.subrange(0, "LIGNANO"@.len() as int)[0] != "LIGNANO"@[0] || p.subrange(0, "LIGNANO"@.len() as int)[1] != "LIGNANO"@[1]);
            }
        }
        assert(!names_track(p, "SANTOS"@)) by {
            if p.len() > "SANTOS"@.len() {
                assert(p.subrange(0, "SANTOS"@.len() as int)[0] != "SANTOS"@[0] || p.subrange(0, "SANTOS"@.len() as int)[1] != "SANTOS"@[1]);
            }
        }
        assert(!names_track(p, "ARIZA"@)) by {
            if p.len() > "ARIZA"@.len() {
                assert(p.subrange(0, "ARIZA"@.len() as int)[0] != "ARIZA"@[0] || p.subrange(0, "ARIZA"@.len() as int)[1] != "ARIZA"@[1]);
            }
        }
    }
    if p == "CAMPILLOS-RACE"@ {
        assert(p.subrange(0, "CAMPILLOS"@.len() as int) =~= "CAMPILLOS"@);
        assert(!names_track(p, "LIGNANO"@)) by {
            if p.len() > "LIGNANO"@.len() {
                assert(p.subrange(0, "LIGNANO"@.len() as int)[0] != "LIGNANO"@[0] || p.subrange(0, "LIGNANO"@.len() as int)[1] != "LIGNANO"@[1]);
            }
        }
        assert(!names_track(p, "SANTOS"@)) by {
            if p.len() > "SANTOS"@.len() {
                assert(p.subrange(0, "SANTOS"@.len() as int)[0] != "SANTOS"@[0] || p.subrange(0, "SANTOS"@.len() as int)[1] != "SANTOS"@[1]);
            }
        }
        assert(!names_track(p, "ARIZA"@)) by {
            if p.len() > "ARIZA"@.len() {
                assert(p.subrange(0, "ARIZA"@.len() as int)[0] != "ARIZA"@[0] || p.subrange(0, "ARIZA"@.len() as int)[1] != "ARIZA"@[1]);
            }
        }
    }
    if p == "CAMPILLOS-8HORAS-FP"@ {
        assert(p.subrange(0, "CAMPILLOS"@.len() as int) =~= "CAMPILLOS"@);
        assert(!names_track(p, "LIGNANO"@)) by {
            if p.len() > "LIGNANO"@.len() {
                assert(p.subrange(0, "LIGNANO"@.len() as int)[0] != "LIGNANO"@[0] || p.subrange(0, "LIGNANO"@.len() as int)[1] != "LIGNANO"@[1]);
            }
        }
        assert(!names_track(p, "SANTOS"@)) by {
            if p.len() > "SANTOS"@.len() {
                assert(p.subrange(0, "SANTOS"@.len() as int)[0] != "SANTOS"@[0] || p.subrange(0, "SANTOS"@.len() as int)[1] != "SANTOS"@[1]);
            }
        }
        assert(!names_track(p, "ARIZA"@)) by {
            if p.len() > "ARIZA"@.len() {
                assert(p.subrange(0, "ARIZA"@.len() as int)[0] != "ARIZA"@[0] || p.subrange(0, "ARIZA"@.len() as int)[1] != "ARIZA"@[1]);
            }
        }
    }
    if p == "CAMPILLOS-30HORAS"@ {
        assert(p.subrange(0, "CAMPILLOS"@.len() as int) =~= "CAMPILLOS"@);
        assert(!names_track(p, "LIGNANO"@)) by {
            if p.len() > "LIGNANO"@.len() {
                assert(p.subrange(0, "LIGNANO"@.len() as int)[0] != "LIGNANO"@[0] || p.subrange(0, "LIGNANO"@.len() as int)[1] != "LIGNANO"@[1]);
            }
        }
        assert(!names_track(p, "SANTOS"@)) by {
            if p.len() > "SANTOS"@.len() {
                assert(p.subrange(0, "SANTOS"@.len() as int)[0] != "SANTOS"@[0] || p.subrange(0, "SANTOS"@.len() as int)[1] != "SANTOS"@[1]);
            }
        }
        assert(!names_track(p, "ARIZA"@)) by {
            if p.len() > "ARIZA"@.len() {
                assert(p.subrange(0, "ARIZA"@.len() as int)[0] != "ARIZA"@[0] || p.subrange(0, "ARIZA"@.len() as int)[1] != "ARIZA"@[1]);
            }
        }
    }
    if p == "ARIZA-PRACTICE"@ {
        assert(p.subrange(0, "ARIZA"@.len() as int) =~= "ARIZA"@);
        assert(!names_track(p, "LIGNANO"@)) by {
            if p.len() > "LIGNANO"@.len() {
                assert(p.subrange(0, "LIGNANO"@.len() as int)[0] != "LIGNANO"@[0] || p.subrange(0, "LIGNANO"@.len() as int)[1] != "LIGNANO"@[1]);
            }
        }
        assert(!names_track(p, "SANTOS"@)) by {
            if p.len() > "SANTOS"@.len() {
                assert(p.subrange(0, "SANTOS"@.len() as int)[0] != "SANTOS"@[0] || p.subrange(0, "SANTOS"@.len() as int)[1] != "SANTOS"@[1]);
            }
        }
        assert(!names_track(p, "CAMPILLOS"@)) by {
            if p.len() > "CAMPILLOS"@.len() {
                assert(p.subrange(0, "CAMPILLOS"@.len() as int)[0] != "CAMPILLOS"@[0] || p.subrange(0, "CAMPILLOS"@.len() as int)[1] != "CAMPILLOS"@[1]);
            }
        }
    }
    if p == "ARIZA-RACE"@ {
        assert(p.subrange(0, "ARIZA"@.len() as int) =~= "ARIZA"@);
        assert(!names_track(p, "LIGNANO"@)) by {
            if p.len() > "LIGNANO"@.len() {
                assert(p.subrange(0, "LIGNANO"@.len() as int)[0] != "LIGNANO"@[0] || p.subrange(0, "LIGNANO"@.len() as int)[1] != "LIGNANO"@[1]);
            }
        }
        assert(!names_track(p, "SANTOS"@)) by {
            if p.len() > "SANTOS"@.len() {
                assert(p.subrange(0, "SANTOS"@.len() as int)[0] != "SANTOS"@[0] || p.subrange(0, "SANTOS"@.len() as int)[1] != "SANTOS"@[1]);
            }
        }
        assert(!names_track(p, "CAMPILLOS"@)) by {
            if p.len() > "CAMPILLOS"@.len() {
                assert(p.subrange(0, "CAMPILLOS"@.len() as int)[0] != "CAMPILLOS"@[0] || p.subrange(0, "CAMPILLOS"@.len() as int)[1] != "CAMPILLOS"@[1]);
            }
        }
    }
}

/// The practice and race profiles of a track share its address, and
/// profiles of different tracks have different addresses.
pub proof fn lemma_same_track_same_address(p: Seq<char>, q: Seq<char>, t: Seq<char>, u: Seq<char>)
    requires
        known_profile(p),
        known_profile(q),
        names_track(p, t),
        names_track(q, u),
        t == "LIGNANO"@ || t == "SANTOS"@ || t == "CAMPILLOS"@ || t == "ARIZA"@,
        u == "LIGNANO"@ || u == "SANTOS"@ || u == "CAMPILLOS"@ || u == "ARIZA"@,
    ensures
        track_url(p) == track_url(q) <==> t == u,
{
    lemma_track_address(p);
    lemma_track_address(q);
    reveal_strlit("LIGNANO-PRACTICE");
    reveal_strlit("LIGNANO-RACE");
    reveal_strlit("SANTOS-PRACTICE");
    reveal_strlit("SANTOS-RACE");
    reveal_strlit("CAMPILLOS-PRACTICE");
    reveal_strlit("CAMPILLOS-RACE");
    reveal_strlit("CAMPILLOS-8HORAS-FP");
    reveal_strlit("CAMPILLOS-30HORAS");
    reveal_strlit("ARIZA-PRACTICE");
    reveal_strlit("ARIZA-RACE");
    reveal_strlit("LIGNANO");
    reveal_strlit("SANTOS");
    reveal_strlit("CAMPILLOS");
    reveal_strlit("ARIZA");
    reveal_strlit("ws://www.apex-timing.com:8182/");
    reveal_strlit("ws://www.apex-timing.com:8092/");
    reveal_strlit("ws://www.apex-timing.com:8802/");
    reveal_strlit("ws://www.apex-timing.com:8972/");
    let addresses = seq![
        "ws://www.apex-timing.com:8182/"@,
        "ws://www.apex-timing.com:8092/"@,
        "ws://www.apex-timing.com:8802/"@,
        "ws://www.apex-timing.com:8972/"@,
    ];
    assert(addresses[0][26] == '1' && addresses[1][26] == '0' && addresses[2][26] == '8'
        && addresses[3][26] == '9');
}

/// The known profiles are ten different names.
proof fn lemma_profiles_distinct()
    ensures
        "LIGNANO-PRACTICE"@ != "LIGNANO-RACE"@,
        "LIGNANO-PRACTICE"@ != "SANTOS-PRACTICE"@,
        "LIGNANO-PRACTICE"@ != "SANTOS-RACE"@,
        "LIGNANO-PRACTICE"@ != "CAMPILLOS-PRACTICE"@,
        "LIGNANO-PRACTICE"@ != "CAMPILLOS-RACE"@,
        "LIGNANO-PRACTICE"@ != "CAMPILLOS-8HORAS-FP"@,
        "LIGNANO-PRACTICE"@ != "CAMPILLOS-30HORAS"@,
        "LIGNANO-PRACTICE"@ != "ARIZA-PRACTICE"@,
        "LIGNANO-PRACTICE"@ != "ARIZA-RACE"@,
        "LIGNANO-RACE"@ != "SANTOS-PRACTICE"@,
        "LIGNANO-RACE"@ != "SANTOS-RACE"@,
        "LIGNANO-RACE"@ != "CAMPILLOS-PRACTICE"@,
        "LIGNANO-RACE"@ != "CAMPILLOS-RACE"@,
        "LIGNANO-RACE"@ != "CAMPILLOS-8HORAS-FP"@,
        "LIGNANO-RACE"@ != "CAMPILLOS-30HORAS"@,
        "LIGNANO-RACE"@ != "ARIZA-PRACTICE"@,
        "LIGNANO-RACE"@ != "ARIZA-RACE"@,
        "SANTOS-PRACTICE"@ != "SANTOS-RACE"@,
        "SANTOS-PRACTICE"@ != "CAMPILLOS-PRACTICE"@,
        "SANTOS-PRACTICE"@ != "CAMPILLOS-RACE"@,
        "SANTOS-PRACTICE"@ != "CAMPILLOS-8HORAS-FP"@,
        "SANTOS-PRACTICE"@ != "CAMPILLOS-30HORAS"@,
        "SANTOS-PRACTICE"@ != "ARIZA-PRACTICE"@,
        "SANTOS-PRACTICE"@ != "ARIZA-RACE"@,
        "SANTOS-RACE"@ != "CAMPILLOS-PRACTICE"@,
        "SANTOS-RACE"@ != "CAMPILLOS-RACE"@,
        "SANTOS-RACE"@ != "CAMPILLOS-8HORAS-FP"@,
        "SANTOS-RACE"@ != "CAMPILLOS-30HORAS"@,
        "SANTOS-RACE"@ != "ARIZA-PRACTICE"@,
        "SANTOS-RACE"@ != "ARIZA-RACE"@,
        "CAMPILLOS-PRACTICE"@ != "CAMPILLOS-RACE"@,
        "CAMPILLOS-PRACTICE"@ != "CAMPILLOS-8HORAS-FP"@,
        "CAMPILLOS-PRACTICE"@ != "CAMPILLOS-30HORAS"@,
        "CAMPILLOS-PRACTICE"@ != "ARIZA-PRACTICE"@,
        "CAMPILLOS-PRACTICE"@ != "ARIZA-RACE"@,
        "CAMPILLOS-RACE"@ != "CAMPILLOS-8HORAS-FP"@,
        "CAMPILLOS-RACE"@ != "CAMPILLOS-30HORAS"@,
        "CAMPILLOS-RACE"@ != "ARIZA-PRACTICE"@,
        "CAMPILLOS-RACE"@ != "ARIZA-RACE"@,
        "CAMPILLOS-8HORAS-FP"@ != "CAMPILLOS-30HORAS"@,
        "CAMPILLOS-8HORAS-FP"@ != "ARIZA-PRACTICE"@,
        "CAMPILLOS-8HORAS-FP"@ != "ARIZA-RACE"@,
        "CAMPILLOS-30HORAS"@ != "ARIZA-PRACTICE"@,
        "CAMPILLOS-30HORAS"@ != "ARIZA-RACE"@,
        "ARIZA-PRACTICE"@ != "ARIZA-RACE"@,
{
    reveal_strlit("LIGNANO-PRACTICE");
    reveal_strlit("LIGNANO-RACE");
    reveal_strlit("SANTOS-PRACTICE");
    reveal_strlit("SANTOS-RACE");
    reveal_strlit("CAMPILLOS-PRACTICE");
    reveal_strlit("CAMPILLOS-RACE");
    reveal_strlit("CAMPILLOS-8HORAS-FP");
    reveal_strlit("CAMPILLOS-30HORAS");
    reveal_strlit("ARIZA-PRACTICE");
    reveal_strlit("ARIZA-RACE");
    assert("LIGNANO-PRACTICE"@.len() != "LIGNANO-RACE"@.len());
    assert("LIGNANO-PRACTICE"@.len() != "SANTOS-PRACTICE"@.len());
    assert("LIGNANO-PRACTICE"@.len() != "SANTOS-RACE"@.len());
    assert("LIGNANO-PRACTICE"@.len() != "CAMPILLOS-PRACTICE"@.len());
    assert("LIGNANO-PRACTICE"@.len() != "CAMPILLOS-RACE"@.len());
    assert("LIGNANO-PRACTICE"@.len() != "CAMPILLOS-8HORAS-FP"@.len());
    assert("LIGNANO-PRACTICE"@.len() != "CAMPILLOS-30HORAS"@.len());
    assert("LIGNANO-PRACTICE"@.len() != "ARIZA-PRACTICE"@.len());
    assert("LIGNANO-PRACTICE"@.len() != "ARIZA-RACE"@.len());
    assert("LIGNANO-RACE"@.len() != "SANTOS-PRACTICE"@.len());
    assert("LIGNANO-RACE"@.len() != "SANTOS-RACE"@.len());
    assert("LIGNANO-RACE"@.len() != "CAMPILLOS-PRACTICE"@.len());
    assert("LIGNANO-RACE"@.len() != "CAMPILLOS-RACE"@.len());
    assert("LIGNANO-RACE"@.len() != "CAMPILLOS-8HORAS-FP"@.len());
    assert("LIGNANO-RACE"@.len() != "CAMPILLOS-30HORAS"@.len());
    assert("LIGNANO-RACE"@.len() != "ARIZA-PRACTICE"@.len());
    assert("LIGNANO-RACE"@.len() != "ARIZA-RACE"@.len());
    assert("SANTOS-PRACTICE"@.len() != "SANTOS-RACE"@.len());
    assert("SANTOS-PRACTICE"@.len() != "CAMPILLOS-PRACTICE"@.len());
    assert("SANTOS-PRACTICE"@.len() != "CAMPILLOS-RACE"@.len());
    assert("SANTOS-PRACTICE"@.len() != "CAMPILLOS-8HORAS-FP"@.len());
    assert("SANTOS-PRACTICE"@.len() != "CAMPILLOS-30HORAS"@.len());
    assert("SANTOS-PRACTICE"@.len() != "ARIZA-PRACTICE"@.len());
    assert("SANTOS-PRACTICE"@.len() != "ARIZA-RACE"@.len());
    assert("SANTOS-RACE"@.len() != "CAMPILLOS-PRACTICE"@.len());
    assert("SANTOS-RACE"@.len() != "CAMPILLOS-RACE"@.len());
    assert("SANTOS-RACE"@.len() != "CAMPILLOS-8HORAS-FP"@.len());
    assert("SANTOS-RACE"@.len() != "CAMPILLOS-30HORAS"@.len());
    assert("SANTOS-RACE"@.len() != "ARIZA-PRACTICE"@.len());
    assert("SANTOS-RACE"@.len() != "ARIZA-RACE"@.len());
    assert("CAMPILLOS-PRACTICE"@.len() != "CAMPILLOS-RACE"@.len());
    assert("CAMPILLOS-PRACTICE"@.len() != "CAMPILLOS-8HORAS-FP"@.len());
    assert("CAMPILLOS-PRACTICE"@.len() != "CAMPILLOS-30HORAS"@.len());
    assert("CAMPILLOS-PRACTICE"@.len() != "ARIZA-PRACTICE"@.len());
    assert("CAMPILLOS-PRACTICE"@.len() != "ARIZA-RACE"@.len());
    assert("CAMPILLOS-RACE"@.len() != "CAMPILLOS-8HORAS-FP"@.len());
    assert("CAMPILLOS-RACE"@.len() != "CAMPILLOS-30HORAS"@.len());
    assert("CAMPILLOS-RACE"@[0] != "ARIZA-PRACTICE"@[0]);
    assert("CAMPILLOS-RACE"@.len() != "ARIZA-RACE"@.len());
    assert("CAMPILLOS-8HORAS-FP"@.len() != "CAMPILLOS-30HORAS"@.len());
    assert("CAMPILLOS-8HORAS-FP"@.len() != "ARIZA-PRACTICE"@.len());
    assert("CAMPILLOS-8HORAS-FP"@.len() != "ARIZA-RACE"@.len());
    assert("CAMPILLOS-30HORAS"@.len() != "ARIZA-PRACTICE"@.len());
    assert("CAMPILLOS-30HORAS"@.len() != "ARIZA-RACE"@.len());
    assert("ARIZA-PRACTICE"@.len() != "ARIZA-RACE"@.len());
}

/// The grid columns of every profile:
/// kart, driver, position, best, last, gap, lap, on track, pit.
pub proof fn lemma_race_columns_table(p: Seq<char>)
    ensures
        p == "LIGNANO-PRACTICE"@ ==> ({
            let c = race_columns(p).unwrap();
            &&& race_columns(p) is Some
            &&& c.kart == "c5"@
            &&& c.driver == "c6"@
            &&& c.position == "c4"@
            &&& c.best == "c9"@
            &&& c.last == "c10"@
            &&& c.gap == "c11"@
            &&& c.lap == "c12"@
            &&& c.ontrack == "c13"@
            &&& c.pit == "not-present"@
        }),
        p == "LIGNANO-RACE"@ ==> ({
            let c = race_columns(p).unwrap();
            &&& race_columns(p) is Some
            &&& c.kart == "c3"@
            &&& c.driver == "c4"@
            &&& c.position == "c2"@
            &&& c.best == "c8"@
            &&& c.last == "c6"@
            &&& c.gap == "c7"@
            &&& c.lap == "c12"@
            &&& c.ontrack == "c9"@
            &&& c.pit == "c10"@
        }),
        p == "SANTOS-PRACTICE"@ ==> ({
            let c = race_columns(p).unwrap();
            &&& race_columns(p) is Some
            &&& c.kart == "c5"@
            &&& c.driver == "c6"@
            &&& c.position == "c4"@
            &&& c.best == "c9"@
            &&& c.last == "c10"@
            &&& c.gap == "c11"@
            &&& c.lap == "c12"@
            &&& c.ontrack == "c13"@
            &&& c.pit == "not-present"@
        }),
        p == "SANTOS-RACE"@ ==> ({
            let c = race_columns(p).unwrap();
            &&& race_columns(p) is Some
            &&& c.kart == "c3"@
            &&& c.driver == "c4"@
            &&& c.position == "c2"@
            &&& c.best == "c9"@
            &&& c.last == "c5"@
            &&& c.gap == "c7"@
            &&& c.lap == "c6"@
            &&& c.ontrack == "c11"@
            &&& c.pit == "c12"@
        }),
        p == "CAMPILLOS-PRACTICE"@ ==> ({
            let c = race_columns(p).unwrap();
            &&& race_columns(p) is Some
            &&& c.kart == "c4"@
            &&& c.driver == "c5"@
            &&& c.position == "c3"@
            &&& c.best == "c10"@
            &&& c.last == "c9"@
            &&& c.gap == "c11"@
            &&& c.lap == "c13"@
            &&& c.ontrack == "not-present"@
            &&& c.pit == "not-present"@
        }),
        p == "CAMPILLOS-RACE"@ ==> ({
            let c = race_columns(p).unwrap();
            &&& race_columns(p) is Some
            &&& c.kart == "c3"@
            &&& c.driver == "c2"@
            &&& c.position == "c1"@
            &&& c.best == "c10"@
            &&& c.last == "c7"@
            &&& c.gap == "c8"@
            &&& c.lap == "c12"@
            &&& c.ontrack == "not-present"@
            &&& c.pit == "not-present"@
        }),
        p == "CAMPILLOS-8HORAS-FP"@ ==> ({
            let c = race_columns(p).unwrap();
            &&& race_columns(p) is Some
            &&& c.kart == "c6"@
            &&& c.driver == "c2"@
            &&& c.position == "c1"@
            &&& c.best == "c7"@
            &&& c.last == "c5"@
            &&& c.gap == "c4"@
            &&& c.lap == "c12"@
            &&& c.ontrack == "not-present"@
            &&& c.pit == "c3"@
        }),
        p == "CAMPILLOS-30HORAS"@ ==> ({
            let c = race_columns(p).unwrap();
            &&& race_columns(p) is Some
            &&& c.kart == "c4"@
            &&& c.driver == "c5"@
            &&& c.position == "c2"@
            &&& c.best == "c12"@
            &&& c.last == "c10"@
            &&& c.gap == "c11"@
            &&& c.lap == "c6"@
            &&& c.ontrack == "c13"@
            &&& c.pit == "c14"@
        }),
        p == "ARIZA-PRACTICE"@ ==> ({
            let c = race_columns(p).unwrap();
            &&& race_columns(p) is Some
            &&& c.kart == "c4"@
            &&& c.driver == "c5"@
            &&& c.position == "c3"@
            &&& c.best == "c7"@
            &&& c.last == "c6"@
            &&& c.gap == "c8"@
            &&& c.lap == "c10"@
            &&& c.ontrack == "not-present"@
            &&& c.pit == "not-present"@
        }),
        p == "ARIZA-RACE"@ ==> ({
            let c = race_columns(p).unwrap();
            &&& race_columns(p) is Some
            &&& c.kart == "c4"@
            &&& c.driver == "c5"@
            &&& c.position == "c3"@
            &&& c.best == "c7"@
            &&& c.last == "c6"@
            &&& c.gap == "c8"@
            &&& c.lap == "c10"@
            &&& c.ontrack == "not-present"@
            &&& c.pit == "not-present"@
        }),
        known_profile(p) <==> race_columns(p) is Some,
{
    lemma_profiles_distinct();
}

} // verus!
