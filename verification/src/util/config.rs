//! Server configuration: defaults, normalization, the commented file text and comment
//! stripping.
use crate::bedrock::version::{get_latest_protocol, get_latest_version, latest_protocol};
use crate::util::text::{char_is_whitespace, decimal, is_whitespace, push_char, push_decimal, str_chars};
use vstd::prelude::*;

verus! {

/// Server configuration
#[derive(Debug, Clone, PartialEq, Eq)]
pub struct Config {
    /// Server version string
    pub version: String,
    /// Bedrock protocol version
    pub protocol: u16,
    /// Server port
    pub port: u16,
    /// Bind address
    pub bind_addr: String,
    /// Skin save mode: 0 = disabled, 1 = overwrite, 2 = create numbered files
    pub savemode: u8,
}

impl Default for Config {
    fn default() -> (r: Self)
        ensures
            r.version@ == "1.26.21"@,
            r.protocol == 975,
            r.port == 19132,
            r.bind_addr@ == "0.0.0.0"@,
            r.savemode == 2,
    {
        Config {
            version: String::from_str("1.26.21"),
            protocol: 975,
            port: 19132,
            bind_addr: String::from_str("0.0.0.0"),
            savemode: 2,
        }
    }
}

/// Configuration manager for the file at `config_path`.
pub struct ConfigManager {
    pub config_path: String,
}

/// Every character of `s` is white space (so `trim` leaves nothing).
pub open spec fn blank(s: Seq<char>) -> bool {
    forall|i: int| 0 <= i < s.len() ==> is_whitespace(#[trigger] s[i])
}

/// The smaller of `savemode` and 2.
pub open spec fn clamped_savemode(savemode: u8) -> u8 {
    if savemode > 2 {
        2
    } else {
        savemode
    }
}

fn is_blank(s: &str) -> (r: bool)
    ensures
        r == blank(s@),
{
    let cs = str_chars(s);
    let mut i: usize = 0;
    while i < cs.len()
        invariant
            i <= cs@.len(),
            cs@ == s@,
            forall|k: int| 0 <= k < i ==> is_whitespace(#[trigger] cs@[k]),
        decreases cs.len() - i,
    {
        if !char_is_whitespace(cs[i]) {
            return false;
        }
        i = i + 1;
    }
    true
}

impl ConfigManager {
    /// Create a new configuration manager
    pub fn new(config_path: &str) -> (r: Self)
        ensures
            r.config_path@ == config_path@,
    {
        ConfigManager { config_path: String::from_str(config_path) }
    }

    /// Fill in a blank version or a zero protocol with the latest supported ones, and
    /// bring the save mode into range (at most 2); the rest is kept.
    pub fn normalize_supported_version(config: &Config) -> (r: Config)
        ensures
            r.version@ == if blank(config.version@) {
                "1.26.21"@
            } else {
                config.version@
            },
            r.protocol == if config.protocol == 0 {
                latest_protocol() as u16
            } else {
                config.protocol
            },
            r.port == config.port,
            r.bind_addr@ == config.bind_addr@,
            r.savemode == clamped_savemode(config.savemode),
    {
        let version = if is_blank(config.version.as_str()) {
            get_latest_version()
        } else {
            config.version.clone()
        };
        let protocol = if config.protocol == 0 {
            get_latest_protocol()
        } else {
            config.protocol
        };
        let savemode = if config.savemode > 2 {
            2
        } else {
            config.savemode
        };
        Config { version, protocol, port: config.port, bind_addr: config.bind_addr.clone(), savemode }
    }
}

/// Normalizing a configuration twice gives what normalizing it once gives: a normalized
/// configuration is left as it is.
pub proof fn lemma_normalize_idempotent(version: Seq<char>, protocol: u16, savemode: u8)
    ensures
        ({
            let v1 = if blank(version) {
                "1.26.21"@
            } else {
                version
            };
            let p1 = if protocol == 0 {
                latest_protocol() as u16
            } else {
                protocol
            };
            let s1 = clamped_savemode(savemode);
            &&& (if blank(v1) {
                "1.26.21"@
            } else {
                v1
            }) == v1
            &&& (if p1 == 0 {
                latest_protocol() as u16
            } else {
                p1
            }) == p1
            &&& clamped_savemode(s1) == s1
        }),
{
    reveal_strlit("1.26.21");
    assert(!is_whitespace("1.26.21"@[0]));
}

/// A character of a JSON string written with the escapes of `escape_json_string`.
pub open spec fn escape_char(c: char) -> Seq<char> {
    if c == '"' {
        seq!['\\', '"']
    } else if c == '\\' {
        seq!['\\', '\\']
    } else if c == '\n' {
        seq!['\\', 'n']
    } else if c == '\r' {
        seq!['\\', 'r']
    } else if c == '\t' {
        seq!['\\', 't']
    } else {
        seq![c]
    }
}

/// `s` with quotes, backslashes, newlines, carriage returns and tabs escaped.
pub open spec fn escaped(s: Seq<char>) -> Seq<char>
    decreases s.len(),
{
    if s.len() == 0 {
        Seq::empty()
    } else {
        escaped(s.drop_last()) + escape_char(s.last())
    }
}

/// Escape a value for use inside a JSON string.
pub fn escape_json_string(value: &str) -> (r: String)
    ensures
        r@ == escaped(value@),
{
    let cs = str_chars(value);
    let mut out = String::new();
    let mut i: usize = 0;
    while i < cs.len()
        invariant
            i <= cs@.len(),
            out@ == escaped(cs@.take(i as int)),
        decreases cs.len() - i,
    {
        proof {
            assert(cs@.take(i + 1).drop_last() =~= cs@.take(i as int));
        }
        let c = cs[i];
        if c == '"' {
            push_char(&mut out, '\\');
            push_char(&mut out, '"');
        } else if c == '\\' {
            push_char(&mut out, '\\');
            push_char(&mut out, '\\');
        } else if c == '\n' {
            push_char(&mut out, '\\');
            push_char(&mut out, 'n');
        } else if c == '\r' {
            push_char(&mut out, '\\');
            push_char(&mut out, 'r');
        } else if c == '\t' {
            push_char(&mut out, '\\');
            push_char(&mut out, 't');
        } else {
            push_char(&mut out, c);
        }
        proof {
            assert(out@ =~= escaped(cs@.take(i + 1)));
        }
        i = i + 1;
    }
    proof {
        assert(cs@.take(cs@.len() as int) =~= cs@);
    }
    out
}

/// The configuration file text: a JSON object with a comment line before each key.
pub open spec fn config_text(config: Config) -> Seq<char> {
    "{\n  // Minecraft Bedrock version string shown in the server list.\n  \"version\": \""@
        + escaped(config.version@)
        + "\",\n  // Bedrock protocol number. Keep this aligned with the client version.\n  \"protocol\": "@
        + decimal(config.protocol as nat) + ",\n  // UDP port to listen on.\n  \"port\": "@
        + decimal(config.port as nat)
        + ",\n  // Local bind address. 0.0.0.0 listens on all network interfaces.\n  \"bind_addr\": \""@
        + escaped(config.bind_addr@)
        + "\",\n  // Skin save mode: 0 = do not save, 1 = overwrite, 2 = save as numbered new files.\n  \"savemode\": "@
        + decimal(clamped_savemode(config.savemode) as nat) + "\n}\n"@
}

/// Render the configuration as commented JSON.
pub fn format_config_with_comments(config: &Config) -> (r: String)
    ensures
        r@ == config_text(*config),
{
    let mut out = String::from_str(
        "{\n  // Minecraft Bedrock version string shown in the server list.\n  \"version\": \"",
    );
    let v = escape_json_string(config.version.as_str());
    out.append(v.as_str());
    out.append(
        "\",\n  // Bedrock protocol number. Keep this aligned with the client version.\n  \"protocol\": ",
    );
    push_decimal(&mut out, config.protocol as u128);
    out.append(",\n  // UDP port to listen on.\n  \"port\": ");
    push_decimal(&mut out, config.port as u128);
    out.append(
        ",\n  // Local bind address. 0.0.0.0 listens on all network interfaces.\n  \"bind_addr\": \"",
    );
    let b = escape_json_string(config.bind_addr.as_str());
    out.append(b.as_str());
    out.append(
        "\",\n  // Skin save mode: 0 = do not save, 1 = overwrite, 2 = save as numbered new files.\n  \"savemode\": ",
    );
    let sm = if config.savemode > 2 {
        2u8
    } else {
        config.savemode
    };
    push_decimal(&mut out, sm as u128);
    out.append("\n}\n");
    out
}

/// Where the comment stripper stands: in code, inside a string (after a backslash or
/// not), in a line comment, or in a block comment (right after a `*` or not).
pub enum StripState {
    Code,
    Text(bool),
    Line,
    Block(bool),
}

/// What the comment stripper writes for `s` from index `i` on in state `st`:
/// strings are copied as they are, `//` comments are dropped up to (not including)
/// their newline, `/* */` comments are dropped whole.
pub open spec fn strip_from(s: Seq<char>, i: int, st: StripState) -> Seq<char>
    decreases s.len() - i,
{
    if i < 0 || i >= s.len() {
        Seq::empty()
    } else {
        let c = s[i];
        match st {
            StripState::Text(esc) => {
                let next = if esc {
                    StripState::Text(false)
                } else if c == '\\' {
                    StripState::Text(true)
                } else if c == '"' {
                    StripState::Code
                } else {
                    StripState::Text(false)
                };
                seq![c] + strip_from(s, i + 1, next)
            },
            StripState::Code => if c == '"' {
                seq![c] + strip_from(s, i + 1, StripState::Text(false))
            } else if c == '/' && i + 1 < s.len() && s[i + 1] == '/' {
                strip_from(s, i + 2, StripState::Line)
            } else if c == '/' && i + 1 < s.len() && s[i + 1] == '*' {
                strip_from(s, i + 2, StripState::Block(false))
            } else {
                seq![c] + strip_from(s, i + 1, StripState::Code)
            },
            StripState::Line => if c == '\n' {
                seq!['\n'] + strip_from(s, i + 1, StripState::Code)
            } else {
                strip_from(s, i + 1, StripState::Line)
            },
            StripState::Block(after_star) => if after_star && c == '/' {
                strip_from(s, i + 1, StripState::Code)
            } else {
                strip_from(s, i + 1, StripState::Block(c == '*'))
            },
        }
    }
}

/// Remove `//` and `/* */` comments outside JSON strings.
pub fn strip_json_comments(input: &str) -> (r: String)
    ensures
        r@ == strip_from(input@, 0, StripState::Code),
{
    let cs = str_chars(input);
    let n = cs.len();
    let mut out = String::new();
    let mut st = StripState::Code;
    let mut i: usize = 0;
    while i < n
        invariant
            n == cs@.len(),
            cs@ == input@,
            i <= n,
            out@ + strip_from(cs@, i as int, st) == strip_from(cs@, 0, StripState::Code),
        decreases n - i,
    {
        let c = cs[i];
        let ghost old_out = out@;
        let ghost old_st = st;
        let ghost old_i = i as int;
        match st {
            StripState::Text(esc) => {
                push_char(&mut out, c);
                st = if esc {
                    StripState::Text(false)
                } else if c == '\\' {
                    StripState::Text(true)
                } else if c == '"' {
                    StripState::Code
                } else {
                    StripState::Text(false)
                };
                i = i + 1;
                proof {
                    assert(strip_from(cs@, old_i, old_st) == seq![c] + strip_from(cs@, i as int, st));
                    assert(old_out + (seq![c] + strip_from(cs@, i as int, st)) =~= out@ + strip_from(cs@, i as int, st));
                }
            },
            StripState::Code => {
                if c == '"' {
                    push_char(&mut out, c);
                    st = StripState::Text(false);
                    i = i + 1;
                    proof {
                        assert(strip_from(cs@, old_i, old_st) == seq![c] + strip_from(cs@, i as int, st));
                        assert(old_out + (seq![c] + strip_from(cs@, i as int, st)) =~= out@ + strip_from(cs@, i as int, st));
                    }
                } else if c == '/' && i + 1 < n && cs[i + 1] == '/' {
                    st = StripState::Line;
                    i = i + 2;
                    proof {
                        assert(strip_from(cs@, old_i, old_st) == strip_from(cs@, i as int, st));
                    }
                } else if c == '/' && i + 1 < n && cs[i + 1] == '*' {
                    st = StripState::Block(false);
                    i = i + 2;
                    proof {
                        assert(strip_from(cs@, old_i, old_st) == strip_from(cs@, i as int, st));
                    }
                } else {
                    push_char(&mut out, c);
                    i = i + 1;
                    proof {
                        assert(strip_from(cs@, old_i, old_st) == seq![c] + strip_from(cs@, i as int, st));
                        assert(old_out + (seq![c] + strip_from(cs@, i as int, st)) =~= out@ + strip_from(cs@, i as int, st));
                    }
                }
            },
            StripState::Line => {
                if c == '\n' {
                    push_char(&mut out, '\n');
                    st = StripState::Code;
                    i = i + 1;
                    proof {
                        assert(strip_from(cs@, old_i, old_st) == seq!['\n'] + strip_from(cs@, i as int, st));
                        assert(old_out + (seq!['\n'] + strip_from(cs@, i as int, st)) =~= out@ + strip_from(cs@, i as int, st));
                    }
                } else {
                    i = i + 1;
                    proof {
                        assert(strip_from(cs@, old_i, old_st) == strip_from(cs@, i as int, st));
                    }
                }
            },
            StripState::Block(after_star) => {
                if after_star && c == '/' {
                    st = StripState::Code;
                } else {
                    st = StripState::Block(c == '*');
                }
                i = i + 1;
                proof {
                    assert(strip_from(cs@, old_i, old_st) == strip_from(cs@, i as int, st));
                }
            },
        }
    }
    proof {
        assert(out@ + strip_from(cs@, i as int, st) =~= out@);
    }
    out
}

/// Text with no `/` outside or inside strings passes through unchanged.
pub proof fn lemma_strip_without_slash(s: Seq<char>)
    requires
        forall|k: int| 0 <= k < s.len() ==> s[k] != '/',
    ensures
        strip_from(s, 0, StripState::Code) == s,
{
    lemma_strip_copy(s, 0, StripState::Code);
    assert(s.skip(0) =~= s);
}

proof fn lemma_strip_copy(s: Seq<char>, i: int, st: StripState)
    requires
        forall|k: int| 0 <= k < s.len() ==> s[k] != '/',
        0 <= i <= s.len(),
        st is Code || st is Text,
    ensures
        strip_from(s, i, st) == s.skip(i),
    decreases s.len() - i,
{
    if i < s.len() {
        let c = s[i];
        let next = match st {
            StripState::Text(esc) => if esc {
                StripState::Text(false)
            } else if c == '\\' {
                StripState::Text(true)
            } else if c == '"' {
                StripState::Code
            } else {
                StripState::Text(false)
            },
            _ => if c == '"' {
                StripState::Text(false)
            } else {
                StripState::Code
            },
        };
        lemma_strip_copy(s, i + 1, next);
        assert(s.skip(i) =~= seq![c] + s.skip(i + 1));
    } else {
        assert(s.skip(i) =~= Seq::<char>::empty());
    }
}


} // verus!
