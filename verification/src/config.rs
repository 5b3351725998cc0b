//! `.gitalong.json`: the settings of a managed repository, and property lookup.
//!
//! The fields and their defaults are those of every gitalong release, so a
//! configuration written by one is readable by another. Reading and writing
//! the file happen outside this library.
use std::collections::BTreeMap;

use vstd::prelude::*;

use crate::repository::join_path;
use crate::error::Error;
use crate::text::{chars_of, eq_str, push_str, string_of_chars, views};

verus! {

/// Filename of the gitalong configuration in the root of the working tree.
pub const CONFIG_BASENAME: &'static str = ".gitalong.json";

/// Parsed `.gitalong.json`.
#[derive(Debug, Clone, PartialEq, Eq)]
pub struct Config {
    /// URL or path of the store: a `.git` URL or a `file://` URL selects a
    /// git store, any other `http://` or `https://` URL a JSONBin store
    /// (JSONBin.io or an endpoint that answers like it), and no URL the refs
    /// store.
    pub store_url: String,
    /// HTTP headers sent with store requests. `$NAME` and `${NAME}` in the
    /// values are expanded from the environment at request time.
    pub store_headers: BTreeMap<String, String>,
    /// Whether gitalong manages file write permissions to enforce claims.
    pub modify_permissions: bool,
    /// Whether every auto-detected binary file is tracked.
    pub track_binaries: bool,
    /// Extensions of tracked files, each with its leading dot (`.jpg`).
    pub tracked_extensions: Vec<String>,
    /// Cache window for store pulls, in seconds, as the decimal number it
    /// reads as (`60`, `42.5`).
    pub pull_threshold: String,
    /// Whether uncommitted changes are published as sha-less records.
    pub track_uncommitted: bool,
}

impl Default for Config {
    fn default() -> (c: Self)
        ensures
            c.store_url@.len() == 0,
            c.store_headers@.dom().len() == 0,
            !c.modify_permissions,
            !c.track_binaries,
            c.tracked_extensions@.len() == 0,
            c.pull_threshold@ == "60"@,
            !c.track_uncommitted,
    {
        Config {
            store_url: String::new(),
            store_headers: BTreeMap::new(),
            modify_permissions: false,
            track_binaries: false,
            tracked_extensions: Vec::new(),
            pull_threshold: "60".to_owned(),
            track_uncommitted: false,
        }
    }
}

/// The JSON text `serde_json::to_string` gives for a map of strings: an
/// object of its entries in key order.
pub uninterp spec fn json_of_map(m: Map<Seq<char>, Seq<char>>) -> Seq<char>;

/// The JSON text `serde_json::to_string` gives for a list of strings.
pub uninterp spec fn json_of_list(items: Seq<Seq<char>>) -> Seq<char>;

/// Encodes a map of strings with `serde_json::to_string`. Its documentation
/// names the only failures: a `Serialize` impl that fails, or a map with
/// non-string keys; neither can happen for a map of strings to strings.
#[verifier::external_body]
fn encode_string_map(m: &BTreeMap<String, String>) -> (r: String)
    ensures
        r@ == json_of_map(m.deep_view()),
{
    serde_json::to_string(m).unwrap_or_default()
}

/// Encodes a list of strings with `serde_json::to_string`, which cannot fail
/// for a list of strings (see [`encode_string_map`]).
#[verifier::external_body]
fn encode_string_list(items: &Vec<String>) -> (r: String)
    ensures
        r@ == json_of_list(views(items@)),
{
    serde_json::to_string(items).unwrap_or_default()
}

/// A property name with every hyphen turned into an underscore.
pub open spec fn property_key(name: Seq<char>) -> Seq<char> {
    name.map_values(|c: char| if c == '-' { '_' } else { c })
}

/// `true` or `false`.
pub open spec fn bool_text(b: bool) -> Seq<char> {
    if b {
        "true"@
    } else {
        "false"@
    }
}

/// The value of the property `name` in `cfg`, hyphens read as
/// underscores: strings as they are, booleans as `true`/`false`, the
/// threshold as its decimal number, the headers and extensions as JSON;
/// `None` for an unknown property.
pub open spec fn property_value(cfg: Config, name: Seq<char>) -> Option<Seq<char>> {
    let key = property_key(name);
    if key == "store_url"@ {
        Some(cfg.store_url@)
    } else if key == "store_headers"@ {
        Some(json_of_map(cfg.store_headers.deep_view()))
    } else if key == "modify_permissions"@ {
        Some(bool_text(cfg.modify_permissions))
    } else if key == "track_binaries"@ {
        Some(bool_text(cfg.track_binaries))
    } else if key == "tracked_extensions"@ {
        Some(json_of_list(views(cfg.tracked_extensions@)))
    } else if key == "pull_threshold"@ {
        Some(cfg.pull_threshold@)
    } else if key == "track_uncommitted"@ {
        Some(bool_text(cfg.track_uncommitted))
    } else {
        None
    }
}

/// `true` or `false`.
pub fn bool_str(b: bool) -> (s: String)
    ensures
        s@ == bool_text(b),
{
    if b {
        "true".to_owned()
    } else {
        "false".to_owned()
    }
}

fn hyphens_to_underscores(name: &str) -> (key: String)
    ensures
        key@ == property_key(name@),
{
    let cs = crate::text::chars_of(name);
    let mut key = String::new();
    let mut i: usize = 0;
    while i < cs.len()
        invariant
            cs@ == name@,
            i <= cs@.len(),
            key@ == property_key(cs@.subrange(0, i as int)),
        decreases cs.len() - i,
    {
        if cs[i] == '-' {
            key.push('_');
        } else {
            key.push(cs[i]);
        }
        i = i + 1;
        assert(key@ =~= property_key(cs@.subrange(0, i as int)));
    }
    assert(cs@.subrange(0, cs@.len() as int) =~= cs@);
    key
}

impl Config {
    /// Look up a property by its CLI name (see [`property_value`]).
    pub fn property(&self, name: &str) -> (r: Option<String>)
        ensures
            match property_value(*self, name@) {
                Some(v) => r is Some && r->0@ == v,
                None => r is None,
            },
    {
        let key = hyphens_to_underscores(name);
        let key = key.as_str();
        if eq_str(key, "store_url") {
            Some(self.store_url.clone())
        } else if eq_str(key, "store_headers") {
            Some(encode_string_map(&self.store_headers))
        } else if eq_str(key, "modify_permissions") {
            Some(bool_str(self.modify_permissions))
        } else if eq_str(key, "track_binaries") {
            Some(bool_str(self.track_binaries))
        } else if eq_str(key, "tracked_extensions") {
            Some(encode_string_list(&self.tracked_extensions))
        } else if eq_str(key, "pull_threshold") {
            Some(self.pull_threshold.clone())
        } else if eq_str(key, "track_uncommitted") {
            Some(bool_str(self.track_uncommitted))
        } else {
            None
        }
    }

    /// The configuration path of a working tree: `.gitalong.json` joined
    /// onto it.
    pub fn path_for(working_dir: &str) -> (p: String)
        ensures
            p@ == join_path(working_dir@, CONFIG_BASENAME@),
    {
        crate::repository::join(working_dir, CONFIG_BASENAME)
    }
}

/// The message of a store header argument not of the form `KEY=VALUE`.
pub open spec fn bad_header_message(arg: Seq<char>) -> Seq<char> {
    "store header `"@ + arg + "` is not of the form KEY=VALUE"@
}

/// Split a `--store-header` argument at its first `=` into a name and a
/// value. Fails with [`Error::InvalidConfig`] when there is no `=` or the
/// name before it is empty.
pub fn parse_store_header(arg: &str) -> (r: Result<(String, String), Error>)
    ensures
        match r {
            Ok((k, v)) => exists|i: int| {
                &&& 0 < i < arg@.len()
                &&& arg@[i] == '='
                &&& forall|j: int| 0 <= j < i ==> arg@[j] != '='
                &&& k@ == arg@.subrange(0, i)
                &&& v@ == arg@.subrange(i + 1, arg@.len() as int)
            },
            Err(e) => {
                &&& e matches Error::InvalidConfig(m) && m@ == bad_header_message(arg@)
                &&& forall|i: int| 0 < i < arg@.len() && arg@[i] == '=' ==> exists|j: int| 0 <= j < i && arg@[j] == '='
            },
        },
{
    let cs = chars_of(arg);
    let mut i: usize = 0;
    while i < cs.len()
        invariant
            cs@ == arg@,
            i <= cs@.len(),
            forall|j: int| 0 <= j < i ==> cs@[j] != '=',
        ensures
            i <= cs@.len(),
            forall|j: int| 0 <= j < i ==> cs@[j] != '=',
            i < cs@.len() ==> cs@[i as int] == '=',
        decreases cs.len() - i,
    {
        if cs[i] == '=' {
            break;
        }
        i = i + 1;
    }
    if i == 0 || i == cs.len() {
        let mut m = String::new();
        push_str(&mut m, "store header `");
        push_str(&mut m, arg);
        push_str(&mut m, "` is not of the form KEY=VALUE");
        proof {
            assert(m@ =~= bad_header_message(arg@));
            assert forall|k: int| 0 < k < arg@.len() && arg@[k] == '=' implies exists|j: int| 0 <= j < k && arg@[j] == '=' by {
                assert(i == 0);
                assert(arg@[0] == '=');
            }
        }
        return Err(Error::InvalidConfig(m));
    }
    let key = string_of_chars(&cs, 0, i);
    let value = string_of_chars(&cs, i + 1, cs.len());
    Ok((key, value))
}

/// Each property reports its own field, under its name with underscores or
/// with hyphens: the booleans as `true` or `false`, the store URL and the
/// pull threshold as they are, whatever the other fields hold.
pub proof fn law_properties_report_their_own_field(cfg: Config)
    ensures
        property_value(cfg, "store_url"@) == Some(cfg.store_url@),
        property_value(cfg, "store-url"@) == Some(cfg.store_url@),
        property_value(cfg, "modify_permissions"@) == Some(if cfg.modify_permissions { "true"@ } else { "false"@ }),
        property_value(cfg, "modify-permissions"@) == Some(if cfg.modify_permissions { "true"@ } else { "false"@ }),
        property_value(cfg, "track_binaries"@) == Some(if cfg.track_binaries { "true"@ } else { "false"@ }),
        property_value(cfg, "track-binaries"@) == Some(if cfg.track_binaries { "true"@ } else { "false"@ }),
        property_value(cfg, "track_uncommitted"@) == Some(if cfg.track_uncommitted { "true"@ } else { "false"@ }),
        property_value(cfg, "track-uncommitted"@) == Some(if cfg.track_uncommitted { "true"@ } else { "false"@ }),
        property_value(cfg, "pull_threshold"@) == Some(cfg.pull_threshold@),
        property_value(cfg, "pull-threshold"@) == Some(cfg.pull_threshold@),
{
    reveal_strlit("store_url");
    reveal_strlit("store-url");
    reveal_strlit("store_headers");
    reveal_strlit("modify_permissions");
    reveal_strlit("modify-permissions");
    reveal_strlit("track_binaries");
    reveal_strlit("track-binaries");
    reveal_strlit("tracked_extensions");
    reveal_strlit("pull_threshold");
    reveal_strlit("pull-threshold");
    reveal_strlit("track_uncommitted");
    reveal_strlit("track-uncommitted");
    reveal_strlit("true");
    reveal_strlit("false");
    assert(property_key("store-url"@) =~= "store_url"@);
    assert(property_key("store_url"@) =~= "store_url"@);
    assert(property_key("modify-permissions"@) =~= "modify_permissions"@);
    assert(property_key("modify_permissions"@) =~= "modify_permissions"@);
    assert(property_key("track-binaries"@) =~= "track_binaries"@);
    assert(property_key("track_binaries"@) =~= "track_binaries"@);
    assert(property_key("track-uncommitted"@) =~= "track_uncommitted"@);
    assert(property_key("track_uncommitted"@) =~= "track_uncommitted"@);
    assert(property_key("pull-threshold"@) =~= "pull_threshold"@);
    assert(property_key("pull_threshold"@) =~= "pull_threshold"@);
    assert("store_url"@ != "store_headers"@) by {
        assert("store_url"@[6] != "store_headers"@[6]);
    }
    assert("track_binaries"@ != "modify_permissions"@);
    assert("track_binaries"@ != "store_headers"@);
    assert("track_binaries"@ != "store_url"@);
    assert("track_uncommitted"@ != "track_binaries"@);
    assert("track_uncommitted"@ != "tracked_extensions"@) by {
        assert("track_uncommitted"@[5] != "tracked_extensions"@[5]);
    }
    assert("pull_threshold"@ != "track_binaries"@) by {
        assert("pull_threshold"@[0] != "track_binaries"@[0]);
    }
    assert("pull_threshold"@ != "tracked_extensions"@);
    assert("pull_threshold"@ != "modify_permissions"@);
    assert("pull_threshold"@ != "store_headers"@);
    assert("pull_threshold"@ != "store_url"@);
    assert("modify_permissions"@ != "store_headers"@);
    assert("modify_permissions"@ != "store_url"@);
    assert("track_uncommitted"@ != "modify_permissions"@);
    assert("track_uncommitted"@ != "store_headers"@);
    assert("track_uncommitted"@ != "store_url"@);
    assert("track_uncommitted"@ != "pull_threshold"@);
}

} // verus!
