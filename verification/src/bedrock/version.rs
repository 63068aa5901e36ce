//! Bedrock protocol number to game version table, with a configurable fallback.
use crate::util::text::{decimal, is_digit_char, lemma_decimal_digits, lemma_decimal_injective};
use vstd::prelude::*;

verus! {

/// The game release of a known protocol number: (major, minor, patch).
pub open spec fn release(protocol: u32) -> Option<(nat, nat, nat)> {
    match protocol {
        70 => Some((0, 14, 3)),
        82 => Some((0, 15, 6)),
        100 => Some((1, 0, 0)),
        422 => Some((1, 16, 201)),
        428 => Some((1, 16, 210)),
        431 => Some((1, 16, 220)),
        440 => Some((1, 17, 0)),
        448 => Some((1, 17, 10)),
        465 => Some((1, 17, 30)),
        471 => Some((1, 17, 40)),
        475 => Some((1, 18, 0)),
        486 => Some((1, 18, 11)),
        503 => Some((1, 18, 30)),
        527 => Some((1, 19, 1)),
        534 => Some((1, 19, 10)),
        544 => Some((1, 19, 20)),
        545 => Some((1, 19, 21)),
        554 => Some((1, 19, 30)),
        557 => Some((1, 19, 40)),
        560 => Some((1, 19, 50)),
        567 => Some((1, 19, 60)),
        568 => Some((1, 19, 63)),
        575 => Some((1, 19, 70)),
        582 => Some((1, 19, 80)),
        589 => Some((1, 20, 0)),
        594 => Some((1, 20, 10)),
        618 => Some((1, 20, 30)),
        622 => Some((1, 20, 40)),
        630 => Some((1, 20, 50)),
        649 => Some((1, 20, 61)),
        662 => Some((1, 20, 71)),
        671 => Some((1, 20, 80)),
        685 => Some((1, 21, 0)),
        686 => Some((1, 21, 2)),
        712 => Some((1, 21, 20)),
        729 => Some((1, 21, 30)),
        748 => Some((1, 21, 42)),
        766 => Some((1, 21, 50)),
        776 => Some((1, 21, 60)),
        786 => Some((1, 21, 70)),
        800 => Some((1, 21, 80)),
        818 => Some((1, 21, 90)),
        819 => Some((1, 21, 93)),
        827 => Some((1, 21, 100)),
        844 => Some((1, 21, 111)),
        859 => Some((1, 21, 120)),
        860 => Some((1, 21, 124)),
        898 => Some((1, 21, 130)),
        924 => Some((1, 26, 0)),
        944 => Some((1, 26, 10)),
        975 => Some((1, 26, 21)),
        _ => None,
    }
}

/// The dotted text of a release, `major.minor.patch`.
pub open spec fn version_text(major: nat, minor: nat, patch: nat) -> Seq<char> {
    decimal(major) + seq!['.'] + decimal(minor) + seq!['.'] + decimal(patch)
}

/// The version string of a known protocol number.
pub open spec fn known_version(protocol: u32) -> Option<Seq<char>> {
    match release(protocol) {
        Some((major, minor, patch)) => Some(version_text(major, minor, patch)),
        None => None,
    }
}

/// Release `a` came out before release `b`: compared by major, then minor, then patch.
pub open spec fn release_before(a: (nat, nat, nat), b: (nat, nat, nat)) -> bool {
    ||| a.0 < b.0
    ||| a.0 == b.0 && a.1 < b.1
    ||| a.0 == b.0 && a.1 == b.1 && a.2 < b.2
}

/// Newer protocol numbers belong to newer game releases: of two known protocol numbers,
/// the smaller one's release came out first.
#[verifier::rlimit(100)]
pub proof fn lemma_releases_follow_protocols(p: u32, q: u32)
    requires
        p < q,
        release(p) is Some,
        release(q) is Some,
    ensures
        release_before(release(p)->0, release(q)->0),
{
}

/// Text that starts with a number and a dot determines that number and what follows.
proof fn lemma_split_at_first_dot(x: nat, rx: Seq<char>, y: nat, ry: Seq<char>)
    requires
        decimal(x) + seq!['.'] + rx == decimal(y) + seq!['.'] + ry,
    ensures
        x == y,
        rx == ry,
{
    let dx = decimal(x);
    let dy = decimal(y);
    let sx = dx + seq!['.'] + rx;
    let sy = dy + seq!['.'] + ry;
    lemma_decimal_digits(x);
    lemma_decimal_digits(y);
    if dx.len() < dy.len() {
        assert(sx[dx.len() as int] == '.');
        assert(sy[dx.len() as int] == dy[dx.len() as int]);
        assert(is_digit_char(dy[dx.len() as int]));
    } else if dy.len() < dx.len() {
        assert(sy[dy.len() as int] == '.');
        assert(sx[dy.len() as int] == dx[dy.len() as int]);
        assert(is_digit_char(dx[dy.len() as int]));
    } else {
        assert(sx.subrange(0, dx.len() as int) =~= dx);
        assert(sy.subrange(0, dy.len() as int) =~= dy);
        lemma_decimal_injective(x, y);
        assert(sx.subrange(dx.len() as int + 1, sx.len() as int) =~= rx);
        assert(sy.subrange(dy.len() as int + 1, sy.len() as int) =~= ry);
    }
}

/// A version string determines its release: different releases are written differently.
pub proof fn lemma_version_text_determines_release(
    major: nat,
    minor: nat,
    patch: nat,
    major2: nat,
    minor2: nat,
    patch2: nat,
)
    requires
        version_text(major, minor, patch) == version_text(major2, minor2, patch2),
    ensures
        major == major2,
        minor == minor2,
        patch == patch2,
{
    let r1 = decimal(minor) + seq!['.'] + decimal(patch);
    let r2 = decimal(minor2) + seq!['.'] + decimal(patch2);
    assert(version_text(major, minor, patch) =~= decimal(major) + seq!['.'] + r1);
    assert(version_text(major2, minor2, patch2) =~= decimal(major2) + seq!['.'] + r2);
    lemma_split_at_first_dot(major, r1, major2, r2);
    lemma_split_at_first_dot(minor, decimal(patch), minor2, decimal(patch2));
    lemma_decimal_injective(patch, patch2);
}

/// Different known protocol numbers have different version strings (and the newer
/// protocol number the newer release).
pub proof fn lemma_known_versions_distinct(p: u32, q: u32)
    requires
        p != q,
        known_version(p) is Some,
        known_version(q) is Some,
    ensures
        known_version(p) != known_version(q),
{
    let a = release(p)->0;
    let b = release(q)->0;
    if p < q {
        lemma_releases_follow_protocols(p, q);
    } else {
        lemma_releases_follow_protocols(q, p);
    }
    if known_version(p) == known_version(q) {
        lemma_version_text_determines_release(a.0, a.1, a.2, b.0, b.1, b.2);
    }
}

/// The version string of a known protocol number.
pub fn lookup_version(protocol: u32) -> (r: Option<&'static str>)
    ensures
        match known_version(protocol) {
            Some(v) => r matches Some(s) && s@ == v,
            None => r is None,
        },
{
    match protocol {
        70 => {
            proof {
                reveal_strlit("0.14.3");
                reveal_with_fuel(decimal, 3);
                assert("0.14.3"@ =~= version_text(0, 14, 3));
            }
            Some("0.14.3")
        },
        82 => {
            proof {
                reveal_strlit("0.15.6");
                reveal_with_fuel(decimal, 3);
                assert("0.15.6"@ =~= version_text(0, 15, 6));
            }
            Some("0.15.6")
        },
        100 => {
            proof {
                reveal_strlit("1.0.0");
                reveal_with_fuel(decimal, 3);
                assert("1.0.0"@ =~= version_text(1, 0, 0));
            }
            Some("1.0.0")
        },
        422 => {
            proof {
                reveal_strlit("1.16.201");
                reveal_with_fuel(decimal, 3);
                assert("1.16.201"@ =~= version_text(1, 16, 201));
            }
            Some("1.16.201")
        },
        428 => {
            proof {
                reveal_strlit("1.16.210");
                reveal_with_fuel(decimal, 3);
                assert("1.16.210"@ =~= version_text(1, 16, 210));
            }
            Some("1.16.210")
        },
        431 => {
            proof {
                reveal_strlit("1.16.220");
                reveal_with_fuel(decimal, 3);
                assert("1.16.220"@ =~= version_text(1, 16, 220));
            }
            Some("1.16.220")
        },
        440 => {
            proof {
                reveal_strlit("1.17.0");
                reveal_with_fuel(decimal, 3);
                assert("1.17.0"@ =~= version_text(1, 17, 0));
            }
            Some("1.17.0")
        },
        448 => {
            proof {
                reveal_strlit("1.17.10");
                reveal_with_fuel(decimal, 3);
                assert("1.17.10"@ =~= version_text(1, 17, 10));
            }
            Some("1.17.10")
        },
        465 => {
            proof {
                reveal_strlit("1.17.30");
                reveal_with_fuel(decimal, 3);
                assert("1.17.30"@ =~= version_text(1, 17, 30));
            }
            Some("1.17.30")
        },
        471 => {
            proof {
                reveal_strlit("1.17.40");
                reveal_with_fuel(decimal, 3);
                assert("1.17.40"@ =~= version_text(1, 17, 40));
            }
            Some("1.17.40")
        },
        475 => {
            proof {
                reveal_strlit("1.18.0");
                reveal_with_fuel(decimal, 3);
                assert("1.18.0"@ =~= version_text(1, 18, 0));
            }
            Some("1.18.0")
        },
        486 => {
            proof {
                reveal_strlit("1.18.11");
                reveal_with_fuel(decimal, 3);
                assert("1.18.11"@ =~= version_text(1, 18, 11));
            }
            Some("1.18.11")
        },
        503 => {
            proof {
                reveal_strlit("1.18.30");
                reveal_with_fuel(decimal, 3);
                assert("1.18.30"@ =~= version_text(1, 18, 30));
            }
            Some("1.18.30")
        },
        527 => {
            proof {
                reveal_strlit("1.19.1");
                reveal_with_fuel(decimal, 3);
                assert("1.19.1"@ =~= version_text(1, 19, 1));
            }
            Some("1.19.1")
        },
        534 => {
            proof {
                reveal_strlit("1.19.10");
                reveal_with_fuel(decimal, 3);
                assert("1.19.10"@ =~= version_text(1, 19, 10));
            }
            Some("1.19.10")
        },
        544 => {
            proof {
                reveal_strlit("1.19.20");
                reveal_with_fuel(decimal, 3);
                assert("1.19.20"@ =~= version_text(1, 19, 20));
            }
            Some("1.19.20")
        },
        545 => {
            proof {
                reveal_strlit("1.19.21");
                reveal_with_fuel(decimal, 3);
                assert("1.19.21"@ =~= version_text(1, 19, 21));
            }
            Some("1.19.21")
        },
        554 => {
            proof {
                reveal_strlit("1.19.30");
                reveal_with_fuel(decimal, 3);
                assert("1.19.30"@ =~= version_text(1, 19, 30));
            }
            Some("1.19.30")
        },
        557 => {
            proof {
                reveal_strlit("1.19.40");
                reveal_with_fuel(decimal, 3);
                assert("1.19.40"@ =~= version_text(1, 19, 40));
            }
            Some("1.19.40")
        },
        560 => {
            proof {
                reveal_strlit("1.19.50");
                reveal_with_fuel(decimal, 3);
                assert("1.19.50"@ =~= version_text(1, 19, 50));
            }
            Some("1.19.50")
        },
        567 => {
            proof {
                reveal_strlit("1.19.60");
                reveal_with_fuel(decimal, 3);
                assert("1.19.60"@ =~= version_text(1, 19, 60));
            }
            Some("1.19.60")
        },
        568 => {
            proof {
                reveal_strlit("1.19.63");
                reveal_with_fuel(decimal, 3);
                assert("1.19.63"@ =~= version_text(1, 19, 63));
            }
            Some("1.19.63")
        },
        575 => {
            proof {
                reveal_strlit("1.19.70");
                reveal_with_fuel(decimal, 3);
                assert("1.19.70"@ =~= version_text(1, 19, 70));
            }
            Some("1.19.70")
        },
        582 => {
            proof {
                reveal_strlit("1.19.80");
                reveal_with_fuel(decimal, 3);
                assert("1.19.80"@ =~= version_text(1, 19, 80));
            }
            Some("1.19.80")
        },
        589 => {
            proof {
                reveal_strlit("1.20.0");
                reveal_with_fuel(decimal, 3);
                assert("1.20.0"@ =~= version_text(1, 20, 0));
            }
            Some("1.20.0")
        },
        594 => {
            proof {
                reveal_strlit("1.20.10");
                reveal_with_fuel(decimal, 3);
                assert("1.20.10"@ =~= version_text(1, 20, 10));
            }
            Some("1.20.10")
        },
        618 => {
            proof {
                reveal_strlit("1.20.30");
                reveal_with_fuel(decimal, 3);
                assert("1.20.30"@ =~= version_text(1, 20, 30));
            }
            Some("1.20.30")
        },
        622 => {
            proof {
                reveal_strlit("1.20.40");
                reveal_with_fuel(decimal, 3);
                assert("1.20.40"@ =~= version_text(1, 20, 40));
            }
            Some("1.20.40")
        },
        630 => {
            proof {
                reveal_strlit("1.20.50");
                reveal_with_fuel(decimal, 3);
                assert("1.20.50"@ =~= version_text(1, 20, 50));
            }
            Some("1.20.50")
        },
        649 => {
            proof {
                reveal_strlit("1.20.61");
                reveal_with_fuel(decimal, 3);
                assert("1.20.61"@ =~= version_text(1, 20, 61));
            }
            Some("1.20.61")
        },
        662 => {
            proof {
                reveal_strlit("1.20.71");
                reveal_with_fuel(decimal, 3);
                assert("1.20.71"@ =~= version_text(1, 20, 71));
            }
            Some("1.20.71")
        },
        671 => {
            proof {
                reveal_strlit("1.20.80");
                reveal_with_fuel(decimal, 3);
                assert("1.20.80"@ =~= version_text(1, 20, 80));
            }
            Some("1.20.80")
        },
        685 => {
            proof {
                reveal_strlit("1.21.0");
                reveal_with_fuel(decimal, 3);
                assert("1.21.0"@ =~= version_text(1, 21, 0));
            }
            Some("1.21.0")
        },
        686 => {
            proof {
                reveal_strlit("1.21.2");
                reveal_with_fuel(decimal, 3);
                assert("1.21.2"@ =~= version_text(1, 21, 2));
            }
            Some("1.21.2")
        },
        712 => {
            proof {
                reveal_strlit("1.21.20");
                reveal_with_fuel(decimal, 3);
                assert("1.21.20"@ =~= version_text(1, 21, 20));
            }
            Some("1.21.20")
        },
        729 => {
            proof {
                reveal_strlit("1.21.30");
                reveal_with_fuel(decimal, 3);
                assert("1.21.30"@ =~= version_text(1, 21, 30));
            }
            Some("1.21.30")
        },
        748 => {
            proof {
                reveal_strlit("1.21.42");
                reveal_with_fuel(decimal, 3);
                assert("1.21.42"@ =~= version_text(1, 21, 42));
            }
            Some("1.21.42")
        },
        766 => {
            proof {
                reveal_strlit("1.21.50");
                reveal_with_fuel(decimal, 3);
                assert("1.21.50"@ =~= version_text(1, 21, 50));
            }
            Some("1.21.50")
        },
        776 => {
            proof {
                reveal_strlit("1.21.60");
                reveal_with_fuel(decimal, 3);
                assert("1.21.60"@ =~= version_text(1, 21, 60));
            }
            Some("1.21.60")
        },
        786 => {
            proof {
                reveal_strlit("1.21.70");
                reveal_with_fuel(decimal, 3);
                assert("1.21.70"@ =~= version_text(1, 21, 70));
            }
            Some("1.21.70")
        },
        800 => {
            proof {
                reveal_strlit("1.21.80");
                reveal_with_fuel(decimal, 3);
                assert("1.21.80"@ =~= version_text(1, 21, 80));
            }
            Some("1.21.80")
        },
        818 => {
            proof {
                reveal_strlit("1.21.90");
                reveal_with_fuel(decimal, 3);
                assert("1.21.90"@ =~= version_text(1, 21, 90));
            }
            Some("1.21.90")
        },
        819 => {
            proof {
                reveal_strlit("1.21.93");
                reveal_with_fuel(decimal, 3);
                assert("1.21.93"@ =~= version_text(1, 21, 93));
            }
            Some("1.21.93")
        },
        827 => {
            proof {
                reveal_strlit("1.21.100");
                reveal_with_fuel(decimal, 3);
                assert("1.21.100"@ =~= version_text(1, 21, 100));
            }
            Some("1.21.100")
        },
        844 => {
            proof {
                reveal_strlit("1.21.111");
                reveal_with_fuel(decimal, 3);
                assert("1.21.111"@ =~= version_text(1, 21, 111));
            }
            Some("1.21.111")
        },
        859 => {
            proof {
                reveal_strlit("1.21.120");
                reveal_with_fuel(decimal, 3);
                assert("1.21.120"@ =~= version_text(1, 21, 120));
            }
            Some("1.21.120")
        },
        860 => {
            proof {
                reveal_strlit("1.21.124");
                reveal_with_fuel(decimal, 3);
                assert("1.21.124"@ =~= version_text(1, 21, 124));
            }
            Some("1.21.124")
        },
        898 => {
            proof {
                reveal_strlit("1.21.130");
                reveal_with_fuel(decimal, 3);
                assert("1.21.130"@ =~= version_text(1, 21, 130));
            }
            Some("1.21.130")
        },
        924 => {
            proof {
                reveal_strlit("1.26.0");
                reveal_with_fuel(decimal, 3);
                assert("1.26.0"@ =~= version_text(1, 26, 0));
            }
            Some("1.26.0")
        },
        944 => {
            proof {
                reveal_strlit("1.26.10");
                reveal_with_fuel(decimal, 3);
                assert("1.26.10"@ =~= version_text(1, 26, 10));
            }
            Some("1.26.10")
        },
        975 => {
            proof {
                reveal_strlit("1.26.21");
                reveal_with_fuel(decimal, 3);
                assert("1.26.21"@ =~= version_text(1, 26, 21));
            }
            Some("1.26.21")
        },
        _ => None,
    }
}

/// The highest protocol number of the table.
pub open spec fn latest_protocol() -> u32 {
    975
}

/// Every known protocol number is at most the latest one, which is itself known.
pub proof fn lemma_latest_is_max(protocol: u32)
    ensures
        known_version(protocol) is Some ==> protocol <= latest_protocol(),
        known_version(latest_protocol()) == Some("1.26.21"@),
{
    reveal_strlit("1.26.21");
    reveal_with_fuel(decimal, 3);
    assert("1.26.21"@ =~= version_text(1, 26, 21));
}

/// The fallback used for protocol numbers the table does not know.
/// An empty fallback version means "the latest known version".
/// It also remembers the unknown protocol numbers already warned about.
#[derive(Debug, Clone)]
pub struct VersionFallback {
    pub version: String,
    pub protocol: u16,
    pub warned_unknown: Vec<u32>,
}

impl VersionFallback {
    /// No fallback configured, nothing warned about yet.
    pub fn new() -> (r: Self)
        ensures
            r.version@ == Seq::<char>::empty(),
            r.protocol == 0,
            r.warned_unknown@ == Seq::<u32>::empty(),
    {
        VersionFallback { version: String::new(), protocol: 0, warned_unknown: Vec::new() }
    }

    /// The warning for a protocol number the table does not know, given the first time
    /// that number is seen (and then remembered); `None` for known numbers and for
    /// numbers already warned about.
    pub fn warn_unknown_once(&mut self, protocol: u32) -> (r: Option<String>)
        ensures
            final(self).version@ == old(self).version@,
            final(self).protocol == old(self).protocol,
            known_version(protocol) is Some || old(self).warned_unknown@.contains(protocol) ==> r
                is None && final(self).warned_unknown@ == old(self).warned_unknown@,
            known_version(protocol) is None && !old(self).warned_unknown@.contains(protocol) ==> (
            r matches Some(m) && m@ == unknown_protocol_warning(
                protocol,
                resolved_version(old(self).version@, protocol),
            ) && final(self).warned_unknown@ == old(self).warned_unknown@.push(protocol)),
    {
        if lookup_version(protocol).is_some() {
            return None;
        }
        let mut i: usize = 0;
        while i < self.warned_unknown.len()
            invariant
                i <= self.warned_unknown@.len(),
                forall|j: int| 0 <= j < i ==> self.warned_unknown@[j] != protocol,
            decreases self.warned_unknown.len() - i,
        {
            if self.warned_unknown[i] == protocol {
                return None;
            }
            i = i + 1;
        }
        let fb = resolve_version(self, protocol);
        self.warned_unknown.push(protocol);
        let mut m = String::from_str("Unknown Bedrock protocol ");
        crate::util::text::push_decimal(&mut m, protocol as u128);
        m.append(" - falling back to ");
        m.append(fb.as_str());
        Some(m)
    }
}

/// The warning given once for an unknown protocol number.
pub open spec fn unknown_protocol_warning(protocol: u32, version: Seq<char>) -> Seq<char> {
    "Unknown Bedrock protocol "@ + crate::util::text::decimal(protocol as nat) + " - falling back to "@
        + version
}

/// The version string `resolve_version` gives for `protocol`.
pub open spec fn resolved_version(fallback: Seq<char>, protocol: u32) -> Seq<char> {
    match known_version(protocol) {
        Some(v) => v,
        None => if fallback.len() == 0 {
            "1.26.21"@
        } else {
            fallback
        },
    }
}

/// Resolve a protocol number to a version string; unknown numbers give the fallback
/// version, or the latest known version when no fallback is set.
pub fn resolve_version(fallback: &VersionFallback, protocol: u32) -> (r: String)
    ensures
        r@ == resolved_version(fallback.version@, protocol),
{
    match lookup_version(protocol) {
        Some(v) => String::from_str(v),
        None => {
            if fallback.version.as_str().is_empty() {
                get_latest_version()
            } else {
                fallback.version.clone()
            }
        },
    }
}

/// The highest known protocol number.
pub fn get_latest_protocol() -> (r: u16)
    ensures
        r == latest_protocol(),
{
    975
}

/// The version string of the highest known protocol number.
pub fn get_latest_version() -> (r: String)
    ensures
        r@ == "1.26.21"@,
{
    String::from_str("1.26.21")
}

/// Set the fallback version used for unknown protocol numbers.
pub fn set_fallback_version(fallback: &mut VersionFallback, v: &str)
    ensures
        final(fallback).version@ == v@,
        final(fallback).protocol == old(fallback).protocol,
{
    fallback.version = String::from_str(v);
}

/// Set the fallback protocol number.
pub fn set_fallback_protocol(fallback: &mut VersionFallback, p: u16)
    ensures
        final(fallback).protocol == p,
        final(fallback).version@ == old(fallback).version@,
{
    fallback.protocol = p;
}

} // verus!
