//! Runtime configuration, built up from comma-separated option strings of
//! the form `name` or `name=value`.

use vstd::prelude::*;
use crate::{chars_of, string_from_chars, string_lit, string_of};
use crate::lexer::is_blank;
use crate::parser::{
    digit_val, digits_valid, digits_value, lemma_digits_value_nonneg, lemma_digits_value_prefix,
};

verus! {

/// The runtime options a driver consults.
#[derive(Debug, PartialEq, Eq, Copy, Clone, Structural)]
pub struct Config {
    /// Print version information and exit.
    pub version: bool,
    /// Cache the parsed tree on disk between runs.
    pub cache: bool,
    /// How many commands to run in parallel; defaults to the number of
    /// logical processors.
    pub children: usize,
    /// Require the runtime to use 64-bit integers.
    pub require_i64: bool,
    /// Allow unsafe injection of bindings across scopes.
    pub unsafe_inject: bool,
}

/// Why a configuration string was rejected.
#[derive(Debug, PartialEq, Eq)]
pub enum ConfigError {
    /// No option of this name exists.
    UnknownConfig(String),
    /// The option exists but its value has the wrong shape.
    WrongConfigValue { name: String, found: String, required_type: String },
    /// An option with more than one equals sign.
    MalformedConfigString { option: String },
}

/// Relies on num_cpus::get: the number of logical processors available to
/// this process, always at least one.
#[verifier::external_body]
fn logical_cpu_count() -> (r: usize)
    ensures
        r >= 1,
{
    num_cpus::get()
}

/// Leading blanks dropped.
pub open spec fn trim_front(s: Seq<char>) -> Seq<char>
    decreases s.len(),
{
    if s.len() > 0 && is_blank(s[0]) {
        trim_front(s.drop_first())
    } else {
        s
    }
}

/// Trailing blanks dropped.
pub open spec fn trim_back(s: Seq<char>) -> Seq<char>
    decreases s.len(),
{
    if s.len() > 0 && is_blank(s.last()) {
        trim_back(s.drop_last())
    } else {
        s
    }
}

/// Blanks dropped from both ends.
pub open spec fn trimmed(s: Seq<char>) -> Seq<char> {
    trim_back(trim_front(s))
}

/// The index of the first occurrence of a character, if any.
pub open spec fn first_index(s: Seq<char>, c: char) -> Option<int>
    decreases s.len(),
{
    if s.len() == 0 {
        None
    } else if s[0] == c {
        Some(0int)
    } else {
        match first_index(s.drop_first(), c) {
            Some(k) => Some(k + 1),
            None => None,
        }
    }
}

/// How often a character occurs.
pub open spec fn count_char(s: Seq<char>, c: char) -> int
    decreases s.len(),
{
    if s.len() == 0 {
        0
    } else {
        (if s[0] == c {
            1int
        } else {
            0int
        }) + count_char(s.drop_first(), c)
    }
}

/// The boolean a value string stands for, if any.
pub open spec fn spec_bool_value(v: Seq<char>) -> Option<bool> {
    if v == "true"@ {
        Some(true)
    } else if v == "false"@ {
        Some(false)
    } else {
        None
    }
}

/// The unsigned number a value string stands for, if any: an optional plus
/// sign, then decimal digits whose value fits the machine word.
pub open spec fn spec_usize_value(v: Seq<char>) -> Option<usize> {
    let ds = if v.len() > 0 && v[0] == '+' {
        v.drop_first()
    } else {
        v
    };
    if digits_valid(ds, 10) && digits_value(ds, 10) <= usize::MAX {
        Some(digits_value(ds, 10) as usize)
    } else {
        None
    }
}

/// What setting one named option to one value yields: the updated
/// configuration, or the fault that rejects the pair.
pub open spec fn spec_apply_named(c: Config, opt: Seq<char>, val: Seq<char>) -> Result<
    Config,
    ConfigError,
> {
    if opt == "version"@ || opt == "cache"@ || opt == "require_i64"@ || opt == "unsafe_inject"@ {
        match spec_bool_value(val) {
            Some(b) => Ok(
                if opt == "version"@ {
                    Config { version: b, ..c }
                } else if opt == "cache"@ {
                    Config { cache: b, ..c }
                } else if opt == "require_i64"@ {
                    Config { require_i64: b, ..c }
                } else {
                    Config { unsafe_inject: b, ..c }
                },
            ),
            None => Err(
                ConfigError::WrongConfigValue {
                    name: string_of(opt),
                    found: string_of(val),
                    required_type: string_of("boolean: true/false"@),
                },
            ),
        }
    } else if opt == "children"@ {
        match spec_usize_value(val) {
            Some(n) => Ok(Config { children: n, ..c }),
            None => Err(
                ConfigError::WrongConfigValue {
                    name: string_of(opt),
                    found: string_of(val),
                    required_type: string_of("number: 0 - usize::MAX"@),
                },
            ),
        }
    } else {
        Err(ConfigError::UnknownConfig(string_of(opt)))
    }
}

/// What one trimmed option string yields: `name` alone sets the option
/// true; `name=value` sets it to the value; more than one equals sign is
/// malformed.
pub open spec fn spec_apply_option(c: Config, o: Seq<char>) -> Result<Config, ConfigError> {
    let eqs = count_char(o, '=');
    if eqs == 0 {
        spec_apply_named(c, o, "true"@)
    } else if eqs == 1 {
        match first_index(o, '=') {
            Some(k) => spec_apply_named(c, o.take(k), o.skip(k + 1)),
            None => spec_apply_named(c, o, "true"@),
        }
    } else {
        Err(ConfigError::MalformedConfigString { option: string_of(o) })
    }
}

/// What a whole comma-separated configuration string yields when applied to
/// a configuration: each option trimmed and applied in order, stopping at
/// the first fault.
pub open spec fn spec_configure(c: Config, s: Seq<char>) -> Result<Config, ConfigError>
    decreases s.len(),
{
    match first_index(s, ',') {
        None => spec_apply_option(c, trimmed(s)),
        Some(k) => if 0 <= k < s.len() {
            match spec_apply_option(c, trimmed(s.take(k))) {
                Err(e) => Err(e),
                Ok(c2) => spec_configure(c2, s.skip(k + 1)),
            }
        } else {
            spec_apply_option(c, trimmed(s))
        },
    }
}

/// A first occurrence lies within the sequence, at the character looked
/// for, with none of it earlier.
proof fn lemma_first_index(s: Seq<char>, c: char)
    ensures
        match first_index(s, c) {
            Some(k) => 0 <= k < s.len() && s[k] == c && forall|j: int|
                0 <= j < k ==> s[j] != c,
            None => forall|j: int| 0 <= j < s.len() ==> s[j] != c,
        },
    decreases s.len(),
{
    if s.len() > 0 && s[0] != c {
        lemma_first_index(s.drop_first(), c);
        match first_index(s.drop_first(), c) {
            Some(k) => {
                assert forall|j: int| 0 <= j < k + 1 implies s[j] != c by {
                    if j > 0 {
                        assert(s.drop_first()[j - 1] != c);
                    }
                }
            },
            None => {
                assert forall|j: int| 0 <= j < s.len() implies s[j] != c by {
                    if j > 0 {
                        assert(s.drop_first()[j - 1] != c);
                    }
                }
            },
        }
    }
}

impl Default for Config {
    /// Everything off, with as many children as the system has logical
    /// processors.
    fn default() -> (r: Self)
        ensures
            !r.version && !r.cache && !r.require_i64 && !r.unsafe_inject,
            r.children >= 1,
    {
        Self {
            version: false,
            cache: false,
            children: logical_cpu_count(),
            require_i64: false,
            unsafe_inject: false,
        }
    }
}

impl Config {
    pub fn new() -> (r: Self)
        ensures
            !r.version && !r.cache && !r.require_i64 && !r.unsafe_inject,
            r.children >= 1,
    {
        Self::default()
    }

    /// A fresh default configuration with one configuration string applied.
    pub fn from_config(config_str: &str) -> (r: Result<Self, ConfigError>)
        ensures
            exists|c0: Config|
                (!c0.version && !c0.cache && !c0.require_i64 && !c0.unsafe_inject && c0.children
                    >= 1) && r == spec_configure(c0, config_str@),
    {
        let mut config = Config::new();
        let ghost c0 = config;
        match config.configure(config_str) {
            Ok(()) => {
                proof {
                    assert(r_witness(c0, config_str@, Ok(config)));
                }
                Ok(config)
            },
            Err(e) => {
                proof {
                    assert(r_witness(c0, config_str@, Err(e)));
                }
                Err(e)
            },
        }
    }

    /// A fresh default configuration with each string of a slice applied in
    /// order.
    pub fn from_config_slice(config_slice: &[String]) -> (r: Result<Self, ConfigError>)
        ensures
            config_slice@.len() == 0 ==> (r matches Ok(c) ==> !c.version && !c.cache
                && !c.require_i64 && !c.unsafe_inject && c.children >= 1),
            r matches Ok(c) ==> spec_configure_slice_ok(c, config_slice@),
    {
        let mut config = Config::new();
        match config.configure_slice(config_slice) {
            Ok(()) => Ok(config),
            Err(e) => Err(e),
        }
    }

    /// Applies each configuration string of a slice in order, stopping at
    /// the first fault.
    pub fn configure_slice(&mut self, config_slice: &[String]) -> (r: Result<(), ConfigError>)
        requires
            true,
        ensures
            r is Ok ==> spec_configure_fold(*old(self), config_slice@) == Some(*final(self)),
            r is Err ==> spec_configure_fold(*old(self), config_slice@) is None,
    {
        let ghost c_start = *self;
        proof {
            assert(config_slice@.skip(0) =~= config_slice@);
        }
        let mut i: usize = 0;
        while i < config_slice.len()
            invariant
                0 <= i <= config_slice@.len(),
                spec_configure_fold(c_start, config_slice@) == spec_configure_fold(
                    *self,
                    config_slice@.skip(i as int),
                ),
            decreases config_slice@.len() - i,
        {
            proof {
                assert(config_slice@.skip(i as int)[0] == config_slice@[i as int]);
                assert(config_slice@.skip(i as int).drop_first() =~= config_slice@.skip(
                    i as int + 1,
                ));
            }
            let s = &config_slice[i];
            match self.configure(s.as_str()) {
                Ok(()) => {},
                Err(e) => {
                    return Err(e);
                },
            }
            i += 1;
        }
        proof {
            assert(config_slice@.skip(config_slice@.len() as int) =~= Seq::<String>::empty());
        }
        Ok(())
    }

    /// Applies one comma-separated configuration string: each option
    /// trimmed and applied in order. On a fault the options before it
    /// stay applied.
    pub fn configure(&mut self, config_str: &str) -> (r: Result<(), ConfigError>)
        ensures
            match r {
                Ok(()) => spec_configure(*old(self), config_str@) == Ok::<Config, ConfigError>(
                    *final(self),
                ),
                Err(e) => spec_configure(*old(self), config_str@) == Err::<Config, ConfigError>(e),
            },
    {
        let cs = chars_of(config_str);
        let ghost c_start = *self;
        proof {
            assert(cs@.skip(0) =~= cs@);
        }
        let mut i: usize = 0;
        loop
            invariant
                i <= cs@.len(),
                cs@ == config_str@,
                spec_configure(c_start, config_str@) == spec_configure(*self, cs@.skip(i as int)),
            decreases cs@.len() - i,
        {
            let ghost seg0 = cs@.skip(i as int);
            proof {
                lemma_first_index(seg0, ',');
            }
            // the end of this option: the next comma, or the end of input
            let mut k: usize = i;
            while k < cs.len() && cs[k] != ','
                invariant
                    i <= k <= cs@.len(),
                    forall|j: int| i <= j < k ==> cs@[j] != ',',
                decreases cs@.len() - k,
            {
                k += 1;
            }
            proof {
                assert forall|j: int| 0 <= j < k - i implies seg0[j] != ',' by {
                    assert(seg0[j] == cs@[i + j]);
                }
                if k < cs@.len() {
                    assert(seg0[k - i] == ',');
                    assert(first_index(seg0, ',') == Some(k - i as int));
                } else {
                    assert(first_index(seg0, ',') is None);
                }
                assert(seg0.take(k - i) =~= cs@.subrange(i as int, k as int));
            }
            match self.apply_segment(&cs, i, k) {
                Err(e) => {
                    return Err(e);
                },
                Ok(()) => {},
            }
            if k == cs.len() {
                proof {
                    assert(seg0.take(k - i) =~= seg0);
                }
                return Ok(());
            }
            proof {
                assert(seg0.skip(k - i + 1) =~= cs@.skip(k as int + 1));
            }
            i = k + 1;
        }
    }

    /// Applies the option in `cs[a..b)`, trimmed.
    fn apply_segment(&mut self, cs: &Vec<char>, a: usize, b: usize) -> (r: Result<(), ConfigError>)
        requires
            a <= b <= cs@.len(),
        ensures
            match r {
                Ok(()) => spec_apply_option(*old(self), trimmed(cs@.subrange(a as int, b as int)))
                    == Ok::<Config, ConfigError>(*final(self)),
                Err(e) => *final(self) == *old(self) && spec_apply_option(
                    *old(self),
                    trimmed(cs@.subrange(a as int, b as int)),
                ) == Err::<Config, ConfigError>(e),
            },
    {
        let ghost seg = cs@.subrange(a as int, b as int);
        // trim blanks from both ends
        let mut a2: usize = a;
        while a2 < b && is_blank_exec(cs[a2])
            invariant
                a <= a2 <= b,
                trim_front(seg) == trim_front(cs@.subrange(a2 as int, b as int)),
            decreases b - a2,
        {
            proof {
                assert(cs@.subrange(a2 as int, b as int).drop_first() =~= cs@.subrange(
                    a2 as int + 1,
                    b as int,
                ));
            }
            a2 += 1;
        }
        proof {
            if a2 < b {
                assert(!is_blank(cs@.subrange(a2 as int, b as int)[0]));
            }
            assert(trim_front(seg) =~= cs@.subrange(a2 as int, b as int));
        }
        let mut b2: usize = b;
        while a2 < b2 && is_blank_exec(cs[b2 - 1])
            invariant
                a2 <= b2 <= b,
                trim_back(cs@.subrange(a2 as int, b as int)) == trim_back(
                    cs@.subrange(a2 as int, b2 as int),
                ),
            decreases b2,
        {
            proof {
                assert(cs@.subrange(a2 as int, b2 as int).drop_last() =~= cs@.subrange(
                    a2 as int,
                    b2 as int - 1,
                ));
            }
            b2 -= 1;
        }
        proof {
            if a2 < b2 {
                assert(!is_blank(cs@.subrange(a2 as int, b2 as int).last()));
            }
            assert(trimmed(seg) =~= cs@.subrange(a2 as int, b2 as int));
        }
        let ghost o = cs@.subrange(a2 as int, b2 as int);
        // find the equals signs
        let mut eqs: usize = 0;
        let mut first_eq: usize = b2;
        let mut j: usize = a2;
        while j < b2
            invariant
                a2 <= j <= b2,
                eqs <= j,
                eqs as int == count_char(o.take(j - a2), '='),
                eqs == 0 ==> first_eq == b2 && (forall|x: int| 0 <= x < j - a2 ==> o[x] != '='),
                eqs > 0 ==> a2 <= first_eq < j && o[first_eq - a2] == '=' && (forall|x: int|
                    0 <= x < first_eq - a2 ==> o[x] != '='),
            decreases b2 - j,
        {
            proof {
                lemma_count_take(o, j - a2 + 1);
                assert(o[j - a2] == cs@[j as int]);
            }
            if cs[j] == '=' {
                if eqs == 0 {
                    first_eq = j;
                }
                eqs += 1;
            }
            j += 1;
        }
        proof {
            assert(o.take(b2 - a2) =~= o);
        }
        if eqs >= 2 {
            let option = copy_range(cs, a2, b2);
            return Err(ConfigError::MalformedConfigString { option });
        }
        if eqs == 0 {
            proof {
                lemma_count_none(o, '=');
            }
            let opt = copy_range(cs, a2, b2);
            let val = string_lit("true");
            return self.apply_named(opt, val, Ghost(o), Ghost("true"@));
        }
        proof {
            lemma_count_first(o, '=');
            assert(first_index(o, '=') == Some(first_eq - a2 as int));
            assert(o.take(first_eq - a2) =~= cs@.subrange(a2 as int, first_eq as int));
            assert(o.skip(first_eq - a2 + 1) =~= cs@.subrange(first_eq as int + 1, b2 as int));
        }
        let opt = copy_range(cs, a2, first_eq);
        let val = copy_range(cs, first_eq + 1, b2);
        self.apply_named(opt, val, Ghost(o.take(first_eq - a2)), Ghost(o.skip(first_eq - a2 + 1)))
    }

    /// Sets one named option to one value.
    fn apply_named(
        &mut self,
        opt: String,
        val: String,
        Ghost(opt_s): Ghost<Seq<char>>,
        Ghost(val_s): Ghost<Seq<char>>,
    ) -> (r: Result<(), ConfigError>)
        requires
            opt == string_of(opt_s),
            opt@ == opt_s,
            val == string_of(val_s),
            val@ == val_s,
        ensures
            match r {
                Ok(()) => spec_apply_named(*old(self), opt_s, val_s) == Ok::<Config, ConfigError>(
                    *final(self),
                ),
                Err(e) => *final(self) == *old(self) && spec_apply_named(*old(self), opt_s, val_s)
                    == Err::<Config, ConfigError>(e),
            },
    {
        let is_bool_opt = opt == string_lit("version") || opt == string_lit("cache") || opt
            == string_lit("require_i64") || opt == string_lit("unsafe_inject");
        if is_bool_opt {
            let b: Option<bool> = if val == string_lit("true") {
                Some(true)
            } else if val == string_lit("false") {
                Some(false)
            } else {
                None
            };
            match b {
                None => Err(
                    ConfigError::WrongConfigValue {
                        name: opt,
                        found: val,
                        required_type: string_lit("boolean: true/false"),
                    },
                ),
                Some(b) => {
                    if opt == string_lit("version") {
                        self.version = b;
                    } else if opt == string_lit("cache") {
                        self.cache = b;
                    } else if opt == string_lit("require_i64") {
                        self.require_i64 = b;
                    } else {
                        self.unsafe_inject = b;
                    }
                    Ok(())
                },
            }
        } else if opt == string_lit("children") {
            match parse_usize(&val) {
                None => Err(
                    ConfigError::WrongConfigValue {
                        name: opt,
                        found: val,
                        required_type: string_lit("number: 0 - usize::MAX"),
                    },
                ),
                Some(n) => {
                    self.children = n;
                    Ok(())
                },
            }
        } else {
            Err(ConfigError::UnknownConfig(opt))
        }
    }
}

/// Applying a sequence of configuration strings in order: the resulting
/// configuration, or `None` at the first fault.
pub open spec fn spec_configure_fold(c: Config, ss: Seq<String>) -> Option<Config>
    decreases ss.len(),
{
    if ss.len() == 0 {
        Some(c)
    } else {
        match spec_configure(c, ss[0]@) {
            Ok(c2) => spec_configure_fold(c2, ss.drop_first()),
            Err(_) => None,
        }
    }
}

/// Whether a configuration can arise from applying the strings to a fresh
/// default configuration.
pub open spec fn spec_configure_slice_ok(c: Config, ss: Seq<String>) -> bool {
    exists|c0: Config|
        (!c0.version && !c0.cache && !c0.require_i64 && !c0.unsafe_inject && c0.children >= 1)
            && spec_configure_fold(c0, ss) == Some(c)
}

/// How `from_config` relates its result to the fresh configuration it
/// started from.
pub open spec fn r_witness(c0: Config, s: Seq<char>, r: Result<Config, ConfigError>) -> bool {
    (!c0.version && !c0.cache && !c0.require_i64 && !c0.unsafe_inject && c0.children >= 1) && r
        == spec_configure(c0, s)
}

/// Whether a character is a blank.
fn is_blank_exec(c: char) -> (r: bool)
    ensures
        r == is_blank(c),
{
    c == ' ' || c == '\t' || c == '\r' || c == '\n'
}

/// The canonical string of a character range.
fn copy_range(cs: &Vec<char>, a: usize, b: usize) -> (r: String)
    requires
        a <= b <= cs@.len(),
    ensures
        r@ == cs@.subrange(a as int, b as int),
        r == string_of(cs@.subrange(a as int, b as int)),
{
    let mut v: Vec<char> = Vec::new();
    let mut i: usize = a;
    while i < b
        invariant
            a <= i <= b,
            v@ == cs@.subrange(a as int, i as int),
        decreases b - i,
    {
        v.push(cs[i]);
        proof {
            assert(v@ =~= cs@.subrange(a as int, i as int + 1));
        }
        i += 1;
    }
    string_from_chars(&v)
}

/// Counting over a prefix grows by the one character the prefix gains.
proof fn lemma_count_take(s: Seq<char>, n: int)
    requires
        0 < n <= s.len(),
    ensures
        count_char(s.take(n), '=') == count_char(s.take(n - 1), '=') + (if s[n - 1] == '=' {
            1int
        } else {
            0int
        }),
    decreases n,
{
    if n == 1 {
        assert(s.take(1).drop_first() =~= s.take(0));
        assert(count_char(s.take(0), '=') == 0);
    } else {
        assert(s.take(n).drop_first() =~= s.skip(1).take(n - 1));
        assert(s.take(n - 1).drop_first() =~= s.skip(1).take(n - 2));
        lemma_count_take(s.skip(1), n - 1);
        assert(s.skip(1).take(n - 1) =~= s.take(n).drop_first());
        assert(s.skip(1).take(n - 2) =~= s.take(n - 1).drop_first());
        assert(s.skip(1)[n - 2] == s[n - 1]);
    }
}

/// A sequence with no occurrences has none first.
proof fn lemma_count_none(s: Seq<char>, c: char)
    requires
        count_char(s, c) == 0,
    ensures
        first_index(s, c) is None,
    decreases s.len(),
{
    if s.len() > 0 {
        lemma_count_nonneg(s.drop_first(), c);
        lemma_count_none(s.drop_first(), c);
    }
}

/// Occurrence counts are never negative.
proof fn lemma_count_nonneg(s: Seq<char>, c: char)
    ensures
        count_char(s, c) >= 0,
    decreases s.len(),
{
    if s.len() > 0 {
        lemma_count_nonneg(s.drop_first(), c);
    }
}

/// The first occurrence found by scanning matches the specification's.
proof fn lemma_count_first(s: Seq<char>, c: char)
    ensures
        forall|k: int|
            0 <= k < s.len() && s[k] == c && (forall|x: int| 0 <= x < k ==> s[x] != c)
                ==> first_index(s, c) == Some(k),
{
    lemma_first_index(s, c);
    assert forall|k: int|
        0 <= k < s.len() && s[k] == c && (forall|x: int|
            0 <= x < k ==> s[x] != c) implies first_index(s, c) == Some(k) by {
        match first_index(s, c) {
            Some(m) => {
                if m < k {
                    assert(s[m] != c);
                } else if m > k {
                    assert(s[k] != c);
                }
            },
            None => {
                assert(s[k] != c);
            },
        }
    }
}

/// Reads an unsigned machine-word number: an optional plus sign, then
/// decimal digits whose value fits.
fn parse_usize(val: &String) -> (r: Option<usize>)
    ensures
        r == spec_usize_value(val@),
{
    let cs = chars_of(val.as_str());
    let start: usize = if cs.len() > 0 && cs[0] == '+' {
        1
    } else {
        0
    };
    let ghost ds = if val@.len() > 0 && val@[0] == '+' {
        val@.drop_first()
    } else {
        val@
    };
    proof {
        assert(ds =~= cs@.subrange(start as int, cs@.len() as int));
    }
    if cs.len() == start {
        proof {
            assert(ds.len() == 0);
            assert(!digits_valid(ds, 10));
        }
        return None;
    }
    let mut m: u128 = 0;
    let mut i: usize = start;
    while i < cs.len()
        invariant
            start <= i <= cs@.len(),
            start == 0 || start == 1,
            cs@ == val@,
            ds == cs@.subrange(start as int, cs@.len() as int),
            m == digits_value(ds.take(i - start), 10),
            m <= usize::MAX as u128,
            forall|j: int| 0 <= j < i - start ==> (#[trigger] digit_val(ds[j], 10)) is Some,
        decreases cs@.len() - i,
    {
        let c = cs[i];
        assert(ds[i - start] == c);
        if !(c >= '0' && c <= '9') {
            proof {
                assert(digit_val(ds[i - start], 10) is None);
                assert(!digits_valid(ds, 10));
            }
            return None;
        }
        let d: u32 = (c as u32) - 48;
        proof {
            assert(m <= 0xffff_ffff_ffff_ffff);
            assert(m * 10 <= 0xffff_ffff_ffff_ffff * 10) by (nonlinear_arith)
                requires
                    m <= 0xffff_ffff_ffff_ffff,
            ;
        }
        m = m * 10 + (d as u128);
        proof {
            let p = ds.take(i - start + 1);
            assert(p.drop_last() =~= ds.take(i - start));
            assert(p.last() == ds[i - start]);
        }
        if m > (usize::MAX as u128) {
            proof {
                lemma_digits_value_prefix(ds, 10, i - start + 1);
                lemma_digits_value_nonneg(ds, 10);
                if digits_valid(ds, 10) {
                    assert(digits_value(ds, 10) > usize::MAX);
                }
            }
            return None;
        }
        i += 1;
    }
    proof {
        assert(ds.take(cs@.len() - start) =~= ds);
        assert(digits_valid(ds, 10));
    }
    Some(m as usize)
}

} // verus!
