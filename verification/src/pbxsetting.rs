//! Build settings from xcconfig files: `KEY = VALUE` lines, and the
//! flattened view of a configuration with its included files.  Reading
//! and include resolution are the caller's business; the parsing of one
//! line and the flattening are here.

use vstd::prelude::*;

use crate::strutil::{char_is_space, is_unicode_space, str_chars, string_from_chars};

verus! {

broadcast use vstd::seq::group_seq_axioms, vstd::std_specs::vec::group_vec_axioms;

/// A build setting: a name and its value.
#[derive(Debug, Clone)]
pub struct Setting {
    pub name: String,
    pub value: String,
}

/// Where `=` first occurs in `s`, or the length.
pub open spec fn spec_find_eq(s: Seq<char>, from: int) -> int
    decreases s.len() - from,
{
    if from < 0 || from >= s.len() {
        s.len() as int
    } else if s[from] == '=' {
        from
    } else {
        spec_find_eq(s, from + 1)
    }
}

/// One past the last non-whitespace character before `i`.
pub open spec fn spec_trim_end_idx(s: Seq<char>, i: int) -> int
    decreases i,
{
    if i <= 0 {
        0
    } else if is_unicode_space(s[i - 1]) {
        spec_trim_end_idx(s, i - 1)
    } else {
        i
    }
}

/// The first non-whitespace position in `[i, b)`.
pub open spec fn spec_trim_start_idx(s: Seq<char>, i: int, b: int) -> int
    decreases b - i,
{
    if i < 0 || i >= b {
        b
    } else if is_unicode_space(s[i]) {
        spec_trim_start_idx(s, i + 1, b)
    } else {
        i
    }
}

/// `s` with leading and trailing whitespace removed.
pub open spec fn spec_trim(s: Seq<char>) -> Seq<char> {
    let b = spec_trim_end_idx(s, s.len() as int);
    let a = spec_trim_start_idx(s, 0, b);
    s.subrange(a, b)
}

/// What `Setting::parse` finds in a line: the trimmed name and value
/// around the first `=`, or nothing when there is no `=` or the name is
/// empty.
pub open spec fn spec_parse_setting(line: Seq<char>) -> Option<(Seq<char>, Seq<char>)> {
    let eq = spec_find_eq(line, 0);
    if eq >= line.len() {
        None
    } else {
        let name = spec_trim(line.subrange(0, eq));
        if name.len() == 0 {
            None
        } else {
            Some((name, spec_trim(line.subrange(eq + 1, line.len() as int))))
        }
    }
}

/// Trim whitespace from both ends of a character slice.
fn trim_chars(chars: &[char]) -> (r: String)
    ensures
        r@ == spec_trim(chars@),
{
    let mut b: usize = chars.len();
    while b > 0 && char_is_space(chars[b - 1])
        invariant
            b <= chars@.len(),
            spec_trim_end_idx(chars@, chars@.len() as int) == spec_trim_end_idx(chars@, b as int),
        decreases b,
    {
        b = b - 1;
    }
    proof {
        assert(spec_trim_end_idx(chars@, b as int) == b);
    }
    let mut a: usize = 0;
    while a < b && char_is_space(chars[a])
        invariant
            a <= b <= chars@.len(),
            spec_trim_end_idx(chars@, chars@.len() as int) == b,
            spec_trim_start_idx(chars@, 0, b as int) == spec_trim_start_idx(
                chars@,
                a as int,
                b as int,
            ),
        decreases b - a,
    {
        a = a + 1;
    }
    proof {
        assert(spec_trim_start_idx(chars@, a as int, b as int) == a);
    }
    string_from_chars(&chars[a..b])
}

impl Setting {
    /// Parse a `KEY = VALUE` line: the first `=` splits it, both sides
    /// are trimmed, and an empty name rejects the line.
    pub fn parse(line: &str) -> (r: Option<Setting>)
        ensures
            match spec_parse_setting(line@) {
                None => r is None,
                Some((n, v)) => (r matches Some(s) && s.name@ == n && s.value@ == v),
            },
    {
        let chars = str_chars(line);
        let mut eq: usize = 0;
        while eq < chars.len() && chars[eq] != '='
            invariant
                chars@ == line@,
                eq <= chars@.len(),
                spec_find_eq(line@, 0) == spec_find_eq(line@, eq as int),
            decreases chars@.len() - eq,
        {
            eq = eq + 1;
        }
        proof {
            assert(spec_find_eq(line@, eq as int) == eq);
        }
        if eq >= chars.len() {
            return None;
        }
        let name = trim_chars(&chars.as_slice()[0..eq]);
        proof {
            assert(chars@.subrange(0, eq as int) == line@.subrange(0, eq as int));
        }
        if name.as_str().is_empty() {
            return None;
        }
        let value = trim_chars(&chars.as_slice()[eq + 1..chars.len()]);
        proof {
            assert(chars@.subrange(eq + 1, chars@.len() as int) == line@.subrange(
                eq + 1,
                line@.len() as int,
            ));
        }
        Some(Setting { name, value })
    }
}

/// An entry of an xcconfig file: a setting, or an included file with its
/// parsed configuration.
#[derive(Debug)]
pub enum ConfigEntry {
    Setting(Setting),
    Include { path: String, config: Box<Config> },
}

/// A parsed xcconfig file.
#[derive(Debug)]
pub struct Config {
    pub path: String,
    pub entries: Vec<ConfigEntry>,
}

/// Every setting of a list of entries, included files flattened in
/// place, in order.
pub open spec fn spec_entries_settings(es: Seq<ConfigEntry>) -> Seq<Setting>
    decreases es,
{
    if es.len() == 0 {
        Seq::empty()
    } else {
        let head = match es[0] {
            ConfigEntry::Setting(s) => seq![s],
            ConfigEntry::Include { config, .. } => spec_entries_settings(config.entries@),
        };
        head + spec_entries_settings(es.drop_first())
    }
}

impl Config {
    /// Flatten all settings, including those of included configurations,
    /// into a single list in file order.
    pub fn all_settings(&self) -> (r: Vec<Setting>)
        ensures
            r@ == spec_entries_settings(self.entries@),
        decreases *self,
    {
        let mut settings: Vec<Setting> = Vec::new();
        let mut i: usize = 0;
        while i < self.entries.len()
            invariant
                i <= self.entries@.len(),
                settings@ + spec_entries_settings(self.entries@.skip(i as int))
                    =~= spec_entries_settings(self.entries@.skip(0)),
            decreases self.entries@.len() - i,
        {
            proof {
                assert(self.entries@.skip(i as int)[0] == self.entries@[i as int]);
                assert(self.entries@.skip(i as int).drop_first() =~= self.entries@.skip(
                    i as int + 1,
                ));
            }
            match &self.entries[i] {
                ConfigEntry::Setting(s) => {
                    settings.push(Setting { name: s.name.clone(), value: s.value.clone() });
                },
                ConfigEntry::Include { config, .. } => {
                    proof {
                        assert(decreases_to!(*self => self.entries));
                        assert(decreases_to!(self.entries => self.entries@));
                        assert(decreases_to!(self.entries@ => self.entries@[i as int]));
                    }
                    let mut sub = config.all_settings();
                    settings.append(&mut sub);
                },
            }
            i = i + 1;
        }
        proof {
            assert(self.entries@.skip(0) =~= self.entries@);
            assert(spec_entries_settings(self.entries@.skip(self.entries@.len() as int))
                =~= Seq::<Setting>::empty());
            assert(settings@ =~= settings@ + Seq::<Setting>::empty());
        }
        settings
    }
}

} // verus!
