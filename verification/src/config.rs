//! Configuration: global install targets, the default install method and
//! the web port. Built-in defaults are overridden and extended by the
//! values read from `config.toml`; `config set` validates known scalars.

use vstd::prelude::*;

use crate::error::Error;
use crate::paths::{join, path_join, Target};
use crate::strmap::{insert_spec, StrMap};
use crate::text::{chars_of, concat2, has_prefix, range_eq, range_starts_with, substring};
use crate::update::{str_debug, debug_text};
use crate::cli::MethodArg;
use crate::text::{all_digits, digits_value, parse_digits, concat3};
pub use crate::registry::Method;

verus! {

/// Effective configuration.
pub struct Config {
    pub targets: StrMap<String>,
    pub default_method: Method,
    pub web_port: u16,
}

/// The built-in web port.
pub const DEFAULT_WEB_PORT: u16 = 7823;

/// `~/x` with the home directory substituted; anything else unchanged.
pub open spec fn expand_tilde_spec(s: Seq<char>, home: Option<Seq<char>>) -> Seq<char> {
    if has_prefix(s, seq!['~', '/']) && home is Some {
        path_join(home->0, s.subrange(2, s.len() as int))
    } else {
        s
    }
}

/// Expand a leading `~/` to the home directory.
pub fn expand_tilde(s: &str, home: &Option<String>) -> (r: String)
    ensures
        r@ == expand_tilde_spec(
            s@,
            match home {
                Some(h) => Some(h@),
                None => None,
            },
        ),
{
    let v = chars_of(s);
    let n = v.len();
    assert(v@.subrange(0, n as int) =~= v@);
    let tilde = range_starts_with(&v, 0, n, "~/");
    proof {
        reveal_strlit("~/");
        assert("~/"@ =~= seq!['~', '/']);
    }
    match home {
        Some(h) if tilde => {
            let rest = substring(s, 2, n);
            join(h.as_str(), rest.as_str())
        },
        _ => String::from_str(s),
    }
}

/// The built-in targets under `home`, in name order.
pub open spec fn default_targets(home: Option<Seq<char>>) -> Seq<(Seq<char>, Seq<char>)> {
    match home {
        Some(h) => seq![
            ("agents"@, path_join(path_join(h, ".agents"@), "skills"@)),
            ("codex"@, path_join(path_join(h, ".codex"@), "skills"@)),
        ],
        None => Seq::empty(),
    }
}

/// Views of the target table.
pub open spec fn targets_view(t: Seq<(Seq<char>, String)>) -> Seq<(Seq<char>, Seq<char>)> {
    t.map_values(|e: (Seq<char>, String)| (e.0, e.1@))
}

impl Config {
    /// Built-in defaults: the global targets under the home directory (none
    /// when it is unknown), symlink installs and port 7823.
    pub fn defaults(home: &Option<String>) -> (c: Config)
        ensures
            c.targets.wf(),
            targets_view(c.targets@) == default_targets(
                match home {
                    Some(h) => Some(h@),
                    None => None,
                },
            ),
            c.default_method == Method::Symlink,
            c.web_port == 7823,
    {
        let mut targets: StrMap<String> = StrMap::new();
        match home {
            Some(h) => {
                let a = join(join(h.as_str(), ".agents").as_str(), "skills");
                let c = join(join(h.as_str(), ".codex").as_str(), "skills");
                let ka = String::from_str("agents");
                let kc = String::from_str("codex");
                proof {
                    reveal_strlit("agents");
                    reveal_strlit("codex");
                    assert(crate::text::seq_lt(ka@, kc@));
                }
                let ghost e1 = targets@;
                targets.insert(ka, a);
                assert(targets@ =~= seq![("agents"@, a)]) by {
                    assert(!crate::strmap::has_key(e1, "agents"@));
                    crate::strmap::lemma_insert_pos(e1, "agents"@, 0);
                }
                let ghost e2 = targets@;
                targets.insert(kc, c);
                assert(targets@ =~= seq![("agents"@, a), ("codex"@, c)]) by {
                    assert(e2[0].0 != "codex"@);
                    assert(!crate::strmap::has_key(e2, "codex"@));
                    crate::strmap::lemma_insert_pos(e2, "codex"@, 1);
                }
                assert(targets_view(targets@) =~= default_targets(Some(h@)));
            },
            None => {
                assert(targets_view(targets@) =~= default_targets(None));
            },
        }
        Config { targets, default_method: Method::Symlink, web_port: DEFAULT_WEB_PORT }
    }

    /// Apply the values read from `config.toml`: a default method, a web
    /// port, and targets added or replaced in the order given (with `~/`
    /// expanded). Absent values keep the current ones.
    pub fn apply_file(
        &mut self,
        method: Option<Method>,
        port: Option<u16>,
        targets: Vec<(String, String)>,
        home: &Option<String>,
    )
        requires
            old(self).targets.wf(),
        ensures
            final(self).targets.wf(),
            final(self).default_method == match method {
                Some(m) => m,
                None => old(self).default_method,
            },
            final(self).web_port == match port {
                Some(p) => p,
                None => old(self).web_port,
            },
            targets_view(final(self).targets@) == apply_targets(
                targets_view(old(self).targets@),
                targets@.map_values(|e: (String, String)| (e.0@, e.1@)),
                match home {
                    Some(h) => Some(h@),
                    None => None,
                },
            ),
    {
        if let Some(m) = method {
            self.default_method = m;
        }
        if let Some(p) = port {
            self.web_port = p;
        }
        let ghost hv = match home {
            Some(h) => Some(h@),
            None => None,
        };
        let ghost tv = targets@.map_values(|e: (String, String)| (e.0@, e.1@));
        let ghost start = targets_view(self.targets@);
        let n = targets.len();
        let mut k: usize = 0;
        while k < n
            invariant
                n == targets@.len(),
                k <= n,
                self.targets.wf(),
                self.default_method == match method {
                    Some(m) => m,
                    None => old(self).default_method,
                },
                self.web_port == match port {
                    Some(p) => p,
                    None => old(self).web_port,
                },
                tv == targets@.map_values(|e: (String, String)| (e.0@, e.1@)),
                hv == match home {
                    Some(h) => Some(h@),
                    None => None::<Seq<char>>,
                },
                targets_view(self.targets@) == apply_targets(start, tv.subrange(0, k as int), hv),
            decreases n - k,
        {
            let name = targets[k].0.clone();
            let p = expand_tilde(targets[k].1.as_str(), home);
            let ghost before = self.targets@;
            self.targets.insert(name, p);
            proof {
                lemma_targets_view_insert(before, targets@[k as int].0@, p);
                assert(tv[k as int] == (targets@[k as int].0@, targets@[k as int].1@));
                assert(tv.subrange(0, k + 1).drop_last() =~= tv.subrange(0, k as int));
            }
            k = k + 1;
        }
        assert(tv.subrange(0, n as int) =~= tv);
    }
}

/// Targets after adding `adds` (name, path) in order, paths `~`-expanded.
pub open spec fn apply_targets(
    t: Seq<(Seq<char>, Seq<char>)>,
    adds: Seq<(Seq<char>, Seq<char>)>,
    home: Option<Seq<char>>,
) -> Seq<(Seq<char>, Seq<char>)>
    decreases adds.len(),
{
    if adds.len() == 0 {
        t
    } else {
        let a = adds.last();
        insert_spec(apply_targets(t, adds.drop_last(), home), a.0, expand_tilde_spec(a.1, home))
    }
}

/// `config.toml` only overrides and extends the targets: the table stays
/// ordered, a target it does not name keeps its path, and the last target
/// it names reads back as that entry's path with `~/` expanded.
pub proof fn law_config_overrides_and_extends(
    t: Seq<(Seq<char>, Seq<char>)>,
    adds: Seq<(Seq<char>, Seq<char>)>,
    home: Option<Seq<char>>,
    name: Seq<char>,
)
    requires
        crate::strmap::keys_sorted(t),
    ensures
        crate::strmap::keys_sorted(apply_targets(t, adds, home)),
        (forall|j: int| 0 <= j < adds.len() ==> (#[trigger] adds[j]).0 != name) ==> crate::strmap::lookup(
            apply_targets(t, adds, home),
            name,
        ) == crate::strmap::lookup(t, name),
        adds.len() > 0 ==> crate::strmap::lookup(apply_targets(t, adds, home), adds.last().0) == Some(
            expand_tilde_spec(adds.last().1, home),
        ),
    decreases adds.len(),
{
    if adds.len() > 0 {
        let pre = adds.drop_last();
        law_config_overrides_and_extends(t, pre, home, name);
        let a = adds.last();
        let base = apply_targets(t, pre, home);
        crate::strmap::law_insert_then_lookup(base, a.0, expand_tilde_spec(a.1, home), name);
        if forall|j: int| 0 <= j < adds.len() ==> (#[trigger] adds[j]).0 != name {
            assert forall|j: int| 0 <= j < pre.len() implies (#[trigger] pre[j]).0 != name by {
                assert(pre[j] == adds[j]);
            }
            assert(adds[adds.len() - 1].0 != name);
        }
    }
}

pub proof fn lemma_targets_view_insert(s: Seq<(Seq<char>, String)>, k: Seq<char>, v: String)
    requires
        crate::strmap::keys_sorted(s),
    ensures
        targets_view(insert_spec(s, k, v)) == insert_spec(targets_view(s), k, v@),
        crate::strmap::keys_sorted(targets_view(s)),
{
    let tv = targets_view(s);
    assert forall|i: int| 0 <= i < s.len() implies tv[i].0 == s[i].0 by {}
    assert(crate::strmap::keys_sorted(tv)) by {
        assert forall|i: int, j: int| 0 <= i < j < tv.len() implies crate::text::seq_lt(
            #[trigger] tv[i].0,
            #[trigger] tv[j].0,
        ) by {
            assert(crate::text::seq_lt(s[i].0, s[j].0));
        }
    }
    if crate::strmap::has_key(s, k) {
        let i = choose|x: int| 0 <= x < s.len() && #[trigger] s[x].0 == k;
        crate::strmap::lemma_key_index(s, i);
        crate::strmap::lemma_key_index(tv, i);
        assert(targets_view(insert_spec(s, k, v)) =~= insert_spec(tv, k, v@));
    } else {
        assert(!crate::strmap::has_key(tv, k)) by {
            if crate::strmap::has_key(tv, k) {
                let j = choose|x: int| 0 <= x < tv.len() && #[trigger] tv[x].0 == k;
                assert(s[j].0 == k);
            }
        }
        let p = crate::strmap::insert_pos(s, k);
        crate::strmap::lemma_split_exists(s, k);
        crate::strmap::lemma_insert_pos(tv, k, p);
        assert(targets_view(insert_spec(s, k, v)) =~= insert_spec(tv, k, v@));
    }
}


/// `str::parse::<u16>`: an optional `+`, then digits, at most 65535.
pub open spec fn parse_u16_spec(s: Seq<char>) -> Option<int> {
    let body = if s.len() > 0 && s[0] == '+' {
        s.subrange(1, s.len() as int)
    } else {
        s
    };
    if all_digits(body) && digits_value(body) <= 65535 {
        Some(digits_value(body))
    } else {
        None
    }
}

/// `str::parse::<i64>`: an optional sign, then digits, within `i64`.
pub open spec fn parse_i64_spec(s: Seq<char>) -> Option<int> {
    let neg = s.len() > 0 && s[0] == '-';
    let body = if s.len() > 0 && (s[0] == '+' || s[0] == '-') {
        s.subrange(1, s.len() as int)
    } else {
        s
    };
    if !all_digits(body) {
        None
    } else if neg {
        if digits_value(body) <= 0x8000_0000_0000_0000 {
            Some(-digits_value(body))
        } else {
            None
        }
    } else if digits_value(body) <= 0x7fff_ffff_ffff_ffff {
        Some(digits_value(body))
    } else {
        None
    }
}

/// Parse a `u16` as `str::parse` does.
pub fn parse_u16(s: &str) -> (r: Option<u16>)
    ensures
        match r {
            Some(x) => parse_u16_spec(s@) == Some(x as int),
            None => parse_u16_spec(s@) is None,
        },
{
    let v = chars_of(s);
    let n = v.len();
    let start: usize = if n > 0 && v[0] == '+' {
        1
    } else {
        0
    };
    assert(v@.subrange(start as int, n as int) =~= if s@.len() > 0 && s@[0] == '+' {
        s@.subrange(1, s@.len() as int)
    } else {
        s@
    });
    match parse_digits(&v, start, n, 65535) {
        Some(x) => Some(x as u16),
        None => None,
    }
}

/// Parse an `i64` as `str::parse` does.
pub fn parse_i64(s: &str) -> (r: Option<i64>)
    ensures
        match r {
            Some(x) => parse_i64_spec(s@) == Some(x as int),
            None => parse_i64_spec(s@) is None,
        },
{
    let v = chars_of(s);
    let n = v.len();
    let neg = n > 0 && v[0] == '-';
    let start: usize = if n > 0 && (v[0] == '+' || v[0] == '-') {
        1
    } else {
        0
    };
    assert(v@.subrange(start as int, n as int) =~= if s@.len() > 0 && (s@[0] == '+' || s@[0]
        == '-') {
        s@.subrange(1, s@.len() as int)
    } else {
        s@
    });
    if neg {
        match parse_digits(&v, start, n, 0x8000_0000_0000_0000) {
            Some(x) => {
                if x == 0x8000_0000_0000_0000 {
                    Some(i64::MIN)
                } else {
                    Some(-(x as i64))
                }
            },
            None => {
                proof {
                    if all_digits(v@.subrange(start as int, n as int)) {
                    }
                }
                None
            },
        }
    } else {
        match parse_digits(&v, start, n, 0x7fff_ffff_ffff_ffff) {
            Some(x) => Some(x as i64),
            None => None,
        }
    }
}

/// Reject values of known keys that would leave `config.toml` unloadable:
/// `web.port` must be a `u16`, `defaults.method` `symlink` or `copy`.
pub fn validate_config_set(key: &str, value: &str) -> (r: Result<(), Error>)
    ensures
        key@ == "web.port"@ ==> match r {
            Ok(()) => parse_u16_spec(value@) is Some,
            Err(e) => parse_u16_spec(value@) is None && (e matches Error::Msg(m) && m@
                == "web.port 必须是 0-65535 的整数，收到: "@ + str_debug(value@)),
        },
        key@ == "defaults.method"@ ==> match r {
            Ok(()) => value@ == "symlink"@ || value@ == "copy"@,
            Err(e) => !(value@ == "symlink"@ || value@ == "copy"@) && (e matches Error::Msg(m)
                && m@ == "defaults.method 只接受 symlink 或 copy，收到: "@ + str_debug(value@)),
        },
        key@ != "web.port"@ && key@ != "defaults.method"@ ==> r is Ok,
{
    proof {
        reveal_strlit("web.port");
        reveal_strlit("defaults.method");
        assert("web.port"@.len() != "defaults.method"@.len());
    }
    if crate::text::str_eq(key, "web.port") {
        match parse_u16(value) {
            Some(_) => Ok(()),
            None => {
                let d = debug_text(value);
                Err(Error::Msg(concat2("web.port 必须是 0-65535 的整数，收到: ", d.as_str())))
            },
        }
    } else if crate::text::str_eq(key, "defaults.method") {
        if crate::text::str_eq(value, "symlink") || crate::text::str_eq(value, "copy") {
            Ok(())
        } else {
            let d = debug_text(value);
            Err(
                Error::Msg(
                    concat2("defaults.method 只接受 symlink 或 copy，收到: ", d.as_str()),
                ),
            )
        }
    } else {
        Ok(())
    }
}

/// A TOML scalar inferred from a `config set` value.
#[derive(Debug, PartialEq)]
pub enum Scalar {
    Integer(i64),
    Boolean(bool),
    Str(String),
}

/// What [`scalar`] infers.
pub open spec fn scalar_spec(v: Seq<char>) -> (int, Option<int>) {
    match parse_i64_spec(v) {
        Some(i) => (0, Some(i)),
        None => if v == "true"@ {
            (1, Some(1))
        } else if v == "false"@ {
            (1, Some(0))
        } else {
            (2, None)
        },
    }
}

/// Integers and booleans are stored as such, anything else as a string.
pub fn scalar(value: &str) -> (r: Scalar)
    ensures
        match r {
            Scalar::Integer(i) => parse_i64_spec(value@) == Some(i as int),
            Scalar::Boolean(b) => parse_i64_spec(value@) is None && (if b {
                value@ == "true"@
            } else {
                value@ == "false"@
            }),
            Scalar::Str(s) => parse_i64_spec(value@) is None && value@ != "true"@ && value@
                != "false"@ && s@ == value@,
        },
{
    if let Some(i) = parse_i64(value) {
        return Scalar::Integer(i);
    }
    if crate::text::str_eq(value, "true") {
        return Scalar::Boolean(true);
    }
    if crate::text::str_eq(value, "false") {
        return Scalar::Boolean(false);
    }
    Scalar::Str(String::from_str(value))
}

/// For `-g` without `--target`: the first configured global target.
pub fn default_global_target(cfg: &Config) -> (r: Result<Target, Error>)
    ensures
        match r {
            Ok(t) => cfg.targets@.len() > 0 && t@ == crate::paths::TargetV::Global(
                cfg.targets@[0].0,
            ),
            Err(e) => cfg.targets@.len() == 0 && (e matches Error::Msg(m) && m@
                == "没有可用的全局 target：请先 skills config targets add <name> <路径>"@),
        },
{
    if cfg.targets.len() == 0 {
        return Err(
            Error::Msg(
                String::from_str("没有可用的全局 target：请先 skills config targets add <name> <路径>"),
            ),
        );
    }
    Ok(Target::Global { name: cfg.targets.key_at(0).clone() })
}

/// The install method: `--method` when given, else the configured default.
pub fn resolve_method(method: Option<MethodArg>, cfg: &Config) -> (r: Method)
    ensures
        r == match method {
            Some(MethodArg::Copy) => Method::Copy,
            Some(MethodArg::Symlink) => Method::Symlink,
            None => cfg.default_method,
        },
{
    match method {
        Some(MethodArg::Copy) => Method::Copy,
        Some(MethodArg::Symlink) => Method::Symlink,
        None => cfg.default_method,
    }
}

} // verus!
