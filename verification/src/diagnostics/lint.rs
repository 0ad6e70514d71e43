//! Lints: their names and groups, the levels they can be set to, and the
//! `[lints]` table of a project's `bitterasm.toml`.
use vstd::prelude::*;

use super::diagnostic::{Diagnostic, Severity};
use crate::ast::{CallArgument, Expr, Facet, FacetPayload};
use crate::token::Span;

use crate::text::{
    chars_are, concat3, decimal, decimal_string, find_char, first_index_of, lemma_first_index_of, lines_of,
    setting_text, split_at_equals, split_lines, string_from_chars, trim_chars, trim_spec,
};

verus! {

/// A lint. The variants are spelled as constants, so that a lint reads
/// `LintName::UNUSED_IMPORT`.
#[allow(non_camel_case_types)]
#[derive(Debug, Clone, Copy, PartialEq, Eq, Hash, Structural)]
pub enum LintName {
    UNUSED_PARAMETER,
    UNUSED_IMPORT,
    UNREACHABLE_CODE,
    GENERATED_DECLARATIONS,
    UNFULFILLED_EXPECTATION,
}

/// The name a lint is configured and reported by.
pub open spec fn lint_text(lint: LintName) -> Seq<char> {
    match lint {
        LintName::UNUSED_PARAMETER => "unused_parameter"@,
        LintName::UNUSED_IMPORT => "unused_import"@,
        LintName::UNREACHABLE_CODE => "unreachable_code"@,
        LintName::GENERATED_DECLARATIONS => "generated_declarations"@,
        LintName::UNFULFILLED_EXPECTATION => "unfulfilled_lint_expectation"@,
    }
}

pub open spec fn lint_named(name: Seq<char>) -> Option<LintName> {
    if name == "unused_parameter"@ {
        Some(LintName::UNUSED_PARAMETER)
    } else if name == "unused_import"@ {
        Some(LintName::UNUSED_IMPORT)
    } else if name == "unreachable_code"@ {
        Some(LintName::UNREACHABLE_CODE)
    } else if name == "generated_declarations"@ {
        Some(LintName::GENERATED_DECLARATIONS)
    } else if name == "unfulfilled_lint_expectation"@ {
        Some(LintName::UNFULFILLED_EXPECTATION)
    } else {
        None
    }
}

/// Every lint, in order.
pub open spec fn all_lints() -> Seq<LintName> {
    seq![
        LintName::UNUSED_PARAMETER,
        LintName::UNUSED_IMPORT,
        LintName::UNREACHABLE_CODE,
        LintName::GENERATED_DECLARATIONS,
        LintName::UNFULFILLED_EXPECTATION,
    ]
}

/// The lints a group name stands for: `unused`, or everything (`all`,
/// `warnings`).
pub open spec fn lint_group(name: Seq<char>) -> Option<Seq<LintName>> {
    if name == "unused"@ {
        Some(seq![LintName::UNUSED_PARAMETER, LintName::UNUSED_IMPORT])
    } else if name == "all"@ || name == "warnings"@ {
        Some(all_lints())
    } else {
        None
    }
}

/// The lints a selector picks: the lint it names, else the group it names.
pub open spec fn lint_selection(selector: Seq<char>) -> Option<Seq<LintName>> {
    match lint_named(selector) {
        Some(lint) => Some(seq![lint]),
        None => lint_group(selector),
    }
}

impl LintName {
    pub fn as_str(self) -> (name: &'static str)
        ensures
            name@ == lint_text(self),
    {
        match self {
            LintName::UNUSED_PARAMETER => "unused_parameter",
            LintName::UNUSED_IMPORT => "unused_import",
            LintName::UNREACHABLE_CODE => "unreachable_code",
            LintName::GENERATED_DECLARATIONS => "generated_declarations",
            LintName::UNFULFILLED_EXPECTATION => "unfulfilled_lint_expectation",
        }
    }

    /// The lint with this name.
    pub fn named(name: &str) -> (lint: Option<LintName>)
        ensures
            lint == lint_named(name@),
    {
        let chars = crate::text::chars_of(name);
        if chars_are(chars.as_slice(), "unused_parameter") {
            Some(LintName::UNUSED_PARAMETER)
        } else if chars_are(chars.as_slice(), "unused_import") {
            Some(LintName::UNUSED_IMPORT)
        } else if chars_are(chars.as_slice(), "unreachable_code") {
            Some(LintName::UNREACHABLE_CODE)
        } else if chars_are(chars.as_slice(), "generated_declarations") {
            Some(LintName::GENERATED_DECLARATIONS)
        } else if chars_are(chars.as_slice(), "unfulfilled_lint_expectation") {
            Some(LintName::UNFULFILLED_EXPECTATION)
        } else {
            None
        }
    }

    /// The lints of the group with this name.
    pub fn group(name: &str) -> (lints: Option<Vec<LintName>>)
        ensures
            match lint_group(name@) {
                Some(group) => lints matches Some(v) && v@ == group,
                None => lints is None,
            },
    {
        let chars = crate::text::chars_of(name);
        if chars_are(chars.as_slice(), "unused") {
            let mut v: Vec<LintName> = Vec::new();
            v.push(LintName::UNUSED_PARAMETER);
            v.push(LintName::UNUSED_IMPORT);
            assert(v@ =~= seq![LintName::UNUSED_PARAMETER, LintName::UNUSED_IMPORT]);
            Some(v)
        } else if chars_are(chars.as_slice(), "all") || chars_are(chars.as_slice(), "warnings") {
            Some(every_lint())
        } else {
            None
        }
    }
}

fn every_lint() -> (lints: Vec<LintName>)
    ensures
        lints@ == all_lints(),
{
    let mut v: Vec<LintName> = Vec::new();
    v.push(LintName::UNUSED_PARAMETER);
    v.push(LintName::UNUSED_IMPORT);
    v.push(LintName::UNREACHABLE_CODE);
    v.push(LintName::GENERATED_DECLARATIONS);
    v.push(LintName::UNFULFILLED_EXPECTATION);
    assert(v@ =~= all_lints());
    v
}

/// How strongly a lint is reported.
#[derive(Debug, Clone, Copy, PartialEq, Eq, Structural)]
pub enum LintLevel {
    Allow,
    Expect,
    Warn,
    Deny,
    Forbid,
}

pub open spec fn level_named(name: Seq<char>) -> Option<LintLevel> {
    if name == "allow"@ {
        Some(LintLevel::Allow)
    } else if name == "expect"@ {
        Some(LintLevel::Expect)
    } else if name == "warn"@ {
        Some(LintLevel::Warn)
    } else if name == "deny"@ {
        Some(LintLevel::Deny)
    } else if name == "forbid"@ {
        Some(LintLevel::Forbid)
    } else {
        None
    }
}

pub open spec fn unknown_level(name: Seq<char>) -> Seq<char> {
    "unknown lint level `"@ + name + "`"@
}

impl LintLevel {
    /// The level named `allow`, `expect`, `warn`, `deny` or `forbid`.
    pub fn parse(value: &str) -> (result: Result<LintLevel, String>)
        ensures
            match level_named(value@) {
                Some(level) => result == Ok::<LintLevel, String>(level),
                None => result matches Err(message) && message@ == unknown_level(value@),
            },
    {
        let chars = crate::text::chars_of(value);
        level_from_chars(chars.as_slice())
    }
}

impl std::str::FromStr for LintLevel {
    type Err = String;

    fn from_str(value: &str) -> (result: Result<LintLevel, String>)
        ensures
            match level_named(value@) {
                Some(level) => result == Ok::<LintLevel, String>(level),
                None => result matches Err(message) && message@ == unknown_level(value@),
            },
    {
        LintLevel::parse(value)
    }
}

fn level_from_chars(value: &[char]) -> (result: Result<LintLevel, String>)
    ensures
        match level_named(value@) {
            Some(level) => result == Ok::<LintLevel, String>(level),
            None => result matches Err(message) && message@ == unknown_level(value@),
        },
{
    if chars_are(value, "allow") {
        Ok(LintLevel::Allow)
    } else if chars_are(value, "expect") {
        Ok(LintLevel::Expect)
    } else if chars_are(value, "warn") {
        Ok(LintLevel::Warn)
    } else if chars_are(value, "deny") {
        Ok(LintLevel::Deny)
    } else if chars_are(value, "forbid") {
        Ok(LintLevel::Forbid)
    } else {
        let name = string_from_chars(value);
        Err(concat3("unknown lint level `", name.as_str(), "`"))
    }
}

// ================
// per-lint levels
// ================

/// Where a lint's level is kept.
pub open spec fn lint_index(lint: LintName) -> int {
    match lint {
        LintName::UNUSED_PARAMETER => 0,
        LintName::UNUSED_IMPORT => 1,
        LintName::UNREACHABLE_CODE => 2,
        LintName::GENERATED_DECLARATIONS => 3,
        LintName::UNFULFILLED_EXPECTATION => 4,
    }
}

fn index_of_lint(lint: LintName) -> (index: usize)
    ensures
        index == lint_index(lint),
{
    match lint {
        LintName::UNUSED_PARAMETER => 0,
        LintName::UNUSED_IMPORT => 1,
        LintName::UNREACHABLE_CODE => 2,
        LintName::GENERATED_DECLARATIONS => 3,
        LintName::UNFULFILLED_EXPECTATION => 4,
    }
}

/// `levels` with each lint of `lints` set to `level`.
pub open spec fn apply_selection(levels: Seq<LintLevel>, lints: Seq<LintName>, level: LintLevel) -> Seq<
    LintLevel,
> {
    Seq::new(
        levels.len(),
        |i: int|
            if exists|k: int| 0 <= k < lints.len() && lint_index(#[trigger] lints[k]) == i {
                level
            } else {
                levels[i]
            },
    )
}

/// Every lint at `warn`.
pub open spec fn default_levels() -> Seq<LintLevel> {
    seq![LintLevel::Warn, LintLevel::Warn, LintLevel::Warn, LintLevel::Warn, LintLevel::Warn]
}

pub open spec fn unknown_selector(selector: Seq<char>) -> Seq<char> {
    "unknown lint or lint group `"@ + selector + "`"@
}

/// The level of every lint, as a project configures it.
#[derive(Debug)]
pub struct LintConfig {
    levels: Vec<LintLevel>,
}

impl LintConfig {
    #[verifier::type_invariant]
    spec fn one_level_per_lint(self) -> bool {
        self.levels@.len() == 5
    }

    /// The levels, one per lint, in the order of [`lint_index`].
    pub closed spec fn view(&self) -> Seq<LintLevel> {
        self.levels@
    }

    pub open spec fn level_of(&self, lint: LintName) -> LintLevel {
        self@[lint_index(lint)]
    }

    pub fn level(&self, lint: LintName) -> (level: LintLevel)
        ensures
            level == self.level_of(lint),
            self@.len() == 5,
    {
        proof {
            use_type_invariant(self);
        }
        self.levels[index_of_lint(lint)]
    }

    /// Sets the lint, or every lint of the group, that `selector` names.
    pub fn set(&mut self, selector: &str, level: LintLevel) -> (result: Result<(), String>)
        ensures
            match lint_selection(selector@) {
                Some(lints) => result is Ok && final(self)@ == apply_selection(old(self)@, lints, level),
                None => result matches Err(message) && message@ == unknown_selector(selector@)
                    && final(self)@ == old(self)@,
            },
            final(self)@.len() == 5,
    {
        let chars = crate::text::chars_of(selector);
        self.set_chars(chars.as_slice(), level)
    }

    fn set_chars(&mut self, selector: &[char], level: LintLevel) -> (result: Result<(), String>)
        ensures
            match lint_selection(selector@) {
                Some(lints) => result is Ok && final(self)@ == apply_selection(old(self)@, lints, level),
                None => result matches Err(message) && message@ == unknown_selector(selector@)
                    && final(self)@ == old(self)@,
            },
            final(self)@.len() == 5,
    {
        proof {
            use_type_invariant(&*self);
        }
        let name = string_from_chars(selector);
        let lints = match LintName::named(name.as_str()) {
            Some(lint) => {
                let mut v: Vec<LintName> = Vec::new();
                v.push(lint);
                assert(v@ =~= seq![lint]);
                v
            },
            None => match LintName::group(name.as_str()) {
                Some(group) => group,
                None => {
                    return Err(concat3("unknown lint or lint group `", name.as_str(), "`"));
                },
            },
        };
        let ghost before = self@;
        let mut levels = self.copy_levels();
        let mut k: usize = 0;
        while k < lints.len()
            invariant
                levels@.len() == 5,
                before.len() == 5,
                k <= lints@.len(),
                levels@ == apply_selection(before, lints@.take(k as int), level),
            decreases lints@.len() - k,
        {
            let i = index_of_lint(lints[k]);
            levels.set(i, level);
            proof {
                let prefix = lints@.take(k as int);
                let next = lints@.take(k + 1);
                assert forall|j: int| 0 <= j < 5 implies #[trigger] levels@[j] == apply_selection(
                    before,
                    next,
                    level,
                )[j] by {
                    if j == i {
                        assert(next[k as int] == lints@[k as int]);
                    } else {
                        if exists|m: int| 0 <= m < next.len() && lint_index(#[trigger] next[m]) == j {
                            let m = choose|m: int| 0 <= m < next.len() && lint_index(#[trigger] next[m]) == j;
                            assert(m != k);
                            assert(prefix[m] == next[m]);
                        }
                        if exists|m: int| 0 <= m < prefix.len() && lint_index(#[trigger] prefix[m]) == j {
                            let m = choose|m: int| 0 <= m < prefix.len() && lint_index(#[trigger] prefix[m]) == j;
                            assert(prefix[m] == next[m]);
                        }
                    }
                }
                assert(levels@ =~= apply_selection(before, next, level));
            }
            k += 1;
        }
        self.levels = levels;
        assert(lints@.take(lints@.len() as int) =~= lints@);
        Ok(())
    }
}

impl LintConfig {
    fn copy_levels(&self) -> (levels: Vec<LintLevel>)
        ensures
            levels@ == self@,
            levels@.len() == 5,
    {
        proof {
            use_type_invariant(self);
        }
        let mut levels: Vec<LintLevel> = Vec::new();
        let mut j: usize = 0;
        while j < 5
            invariant
                self@.len() == 5,
                j <= 5,
                levels@ == self@.take(j as int),
            decreases 5 - j,
        {
            proof {
                use_type_invariant(self);
            }
            levels.push(self.levels[j]);
            assert(self@.take(j + 1) =~= self@.take(j as int).push(self@[j as int]));
            j += 1;
        }
        assert(self@.take(5) =~= self@);
        levels
    }
}

impl Clone for LintConfig {
    fn clone(&self) -> (copy: LintConfig)
        ensures
            copy@ == self@,
    {
        LintConfig { levels: self.copy_levels() }
    }
}

impl Default for LintConfig {
    /// Every lint at `warn`.
    fn default() -> (config: LintConfig)
        ensures
            config@ == default_levels(),
    {
        let mut levels: Vec<LintLevel> = Vec::new();
        let mut k: usize = 0;
        while k < 5
            invariant
                k <= 5,
                levels@.len() == k,
                forall|j: int| 0 <= j < k ==> levels@[j] == LintLevel::Warn,
            decreases 5 - k,
        {
            levels.push(LintLevel::Warn);
            k += 1;
        }
        assert(levels@ =~= default_levels());
        LintConfig { levels }
    }
}

// ================
// the `[lints]` table
// ================

/// A `[section]` header's name.
pub open spec fn section_header(line: Seq<char>) -> Option<Seq<char>> {
    if line.len() >= 2 && line[0] == '[' && line.last() == ']' {
        Some(line.subrange(1, line.len() - 1))
    } else {
        None
    }
}

pub open spec fn at_line(path: Seq<char>, number: nat, message: Seq<char>) -> Seq<char> {
    path + ":"@ + decimal(number) + ": "@ + message
}

/// The levels after the lines from `k` on, in section `section`, or the
/// first error.
pub open spec fn lint_config_from(
    lines: Seq<Seq<char>>,
    k: int,
    levels: Seq<LintLevel>,
    section: Seq<char>,
    path: Seq<char>,
) -> Result<Seq<LintLevel>, Seq<char>>
    decreases lines.len() - k,
{
    if k < 0 || k >= lines.len() {
        Ok(levels)
    } else {
        let line = setting_text(lines[k]);
        if line.len() == 0 {
            lint_config_from(lines, k + 1, levels, section, path)
        } else if section_header(line) is Some {
            lint_config_from(lines, k + 1, levels, section_header(line)->0, path)
        } else if section != "lints"@ {
            lint_config_from(lines, k + 1, levels, section, path)
        } else {
            match split_at_equals(line) {
                None => Err(at_line(path, (k + 1) as nat, "expected `lint = level`"@)),
                Some((left, right)) => {
                    let selector = trim_spec(left, false);
                    let value = trim_spec(trim_spec(right, false), true);
                    match level_named(value) {
                        None => Err(unknown_level(value)),
                        Some(level) => match lint_selection(selector) {
                            None => Err(at_line(path, (k + 1) as nat, unknown_selector(selector))),
                            Some(lints) => lint_config_from(
                                lines,
                                k + 1,
                                apply_selection(levels, lints, level),
                                section,
                                path,
                            ),
                        },
                    }
                },
            }
        }
    }
}

/// The lint levels a `bitterasm.toml` text sets: `lint = "level"` lines of
/// its `[lints]` table, over every lint at `warn`; `#` starts a comment.
pub open spec fn lint_config_spec(source: Seq<char>, path: Seq<char>) -> Result<Seq<LintLevel>, Seq<char>> {
    lint_config_from(split_lines(source), 0, default_levels(), Seq::empty(), path)
}

/// Reads the `[lints]` table of a project configuration. `display_path`
/// names the file in error messages.
pub fn parse_lint_config(source: &str, display_path: &str) -> (result: Result<LintConfig, String>)
    ensures
        match lint_config_spec(source@, display_path@) {
            Ok(levels) => result matches Ok(config) && config@ == levels,
            Err(message) => result matches Err(m) && m@ == message,
        },
{
    let lines = lines_of(source);
    let ghost all = split_lines(source@);
    let mut config = LintConfig::default();
    let mut section: Vec<char> = Vec::new();
    let mut k: usize = 0;
    assert(lines@.len() == all.len());
    while k < lines.len()
        invariant
            lines@.len() == all.len(),
            all == split_lines(source@),
            forall|i: int| 0 <= i < lines@.len() ==> #[trigger] lines@[i]@ == all[i],
            k <= lines@.len(),
            config@.len() == 5,
            lint_config_spec(source@, display_path@) == lint_config_from(
                all,
                k as int,
                config@,
                section@,
                display_path@,
            ),
        decreases lines@.len() - k,
    {
        let line = &lines[k];
        let hash = find_char(line.as_slice(), 0, '#');
        proof {
            assert(line@.subrange(0, line@.len() as int) =~= line@);
            lemma_first_index_of(line@, '#');
        }
        let text = trim_chars(line.as_slice(), 0, hash, false);
        assert(text@ == setting_text(all[k as int])) by {
            assert(line@.subrange(0, hash as int) =~= line@.take(first_index_of(line@, '#') as int));
        }
        if text.len() == 0 {
            k += 1;
            continue;
        }
        if text.len() >= 2 && text[0] == '[' && text[text.len() - 1] == ']' {
            let mut name: Vec<char> = Vec::new();
            let mut j: usize = 1;
            while j < text.len() - 1
                invariant
                    text@.len() >= 2,
                    1 <= j <= text@.len() - 1,
                    name@ == text@.subrange(1, j as int),
                decreases text@.len() - 1 - j,
            {
                name.push(text[j]);
                assert(text@.subrange(1, j + 1) =~= text@.subrange(1, j as int).push(text@[j as int]));
                j += 1;
            }
            section = name;
            k += 1;
            continue;
        }
        if !chars_are(section.as_slice(), "lints") {
            k += 1;
            continue;
        }
        let eq = find_char(text.as_slice(), 0, '=');
        proof {
            assert(text@.subrange(0, text@.len() as int) =~= text@);
            lemma_first_index_of(text@, '=');
        }
        if eq == text.len() {
            return Err(line_error(display_path, k, "expected `lint = level`"));
        }
        let selector = trim_chars(text.as_slice(), 0, eq, false);
        let trimmed_value = trim_chars(text.as_slice(), eq + 1, text.len(), false);
        let value = trim_chars(trimmed_value.as_slice(), 0, trimmed_value.len(), true);
        proof {
            assert(text@.subrange(0, eq as int) =~= text@.take(eq as int));
            assert(text@.subrange(eq + 1, text@.len() as int) =~= text@.skip(eq + 1));
            assert(trimmed_value@.subrange(0, trimmed_value@.len() as int) =~= trimmed_value@);
        }
        let level = match level_from_chars(value.as_slice()) {
            Ok(level) => level,
            Err(message) => {
                return Err(message);
            },
        };
        let ghost before = config@;
        match config.set_chars(selector.as_slice(), level) {
            Ok(()) => {},
            Err(message) => {
                return Err(line_error(display_path, k, message.as_str()));
            },
        }
        k += 1;
    }
    Ok(config)
}

/// `path:line: message`, for the line at index `k`.
fn line_error(path: &str, k: usize, message: &str) -> (text: String)
    requires
        k < usize::MAX,
    ensures
        text@ == at_line(path@, (k + 1) as nat, message@),
{
    let mut text = String::from_str(path);
    text.append(":");
    let number = decimal_string((k + 1) as u64);
    text.append(number.as_str());
    text.append(": ");
    text.append(message);
    text
}

/// Setting a selection reads back: each selected lint has the new level,
/// every other lint keeps its own.
pub proof fn lemma_set_reads_back(levels: Seq<LintLevel>, lints: Seq<LintName>, level: LintLevel, lint: LintName)
    requires
        levels.len() == 5,
    ensures
        apply_selection(levels, lints, level)[lint_index(lint)] == if lints.contains(lint) {
            level
        } else {
            levels[lint_index(lint)]
        },
{
    let i = lint_index(lint);
    if lints.contains(lint) {
        let k = choose|k: int| 0 <= k < lints.len() && lints[k] == lint;
        assert(lint_index(lints[k]) == i);
    } else {
        assert forall|k: int| 0 <= k < lints.len() implies lint_index(#[trigger] lints[k]) != i by {
            assert(lints[k] != lint);
        }
    }
}

/// Unless a project configures otherwise, every lint warns.
pub proof fn lemma_every_lint_warns_by_default(lint: LintName)
    ensures
        0 <= lint_index(lint) < default_levels().len(),
        default_levels()[lint_index(lint)] == LintLevel::Warn,
{
}

/// Each lint is found again by the name it is reported by, and no two
/// lints share a name.
pub proof fn lemma_lint_names_round_trip(lint: LintName, other: LintName)
    ensures
        lint_named(lint_text(lint)) == Some(lint),
        lint_text(lint) == lint_text(other) ==> lint == other,
{
    reveal_strlit("unused_parameter");
    reveal_strlit("unused_import");
    reveal_strlit("unreachable_code");
    reveal_strlit("generated_declarations");
    reveal_strlit("unfulfilled_lint_expectation");
    assert("unused_parameter"@.len() == 16);
    assert("unused_import"@.len() == 13);
    assert("unreachable_code"@.len() == 16);
    assert("generated_declarations"@.len() == 22);
    assert("unfulfilled_lint_expectation"@.len() == 28);
    assert("unused_parameter"@[2] != "unreachable_code"@[2]);
}

/// The `all` group (and `warnings`) selects every lint; `unused` selects
/// exactly the two unused-something lints.
pub proof fn lemma_groups(lint: LintName)
    ensures
        lint_group("all"@) == Some(all_lints()),
        lint_group("warnings"@) == Some(all_lints()),
        all_lints().contains(lint),
        lint_group("unused"@) matches Some(g) && (g.contains(lint) <==> (lint == LintName::UNUSED_PARAMETER
            || lint == LintName::UNUSED_IMPORT)),
{
    reveal_strlit("all");
    reveal_strlit("unused");
    reveal_strlit("warnings");
    assert("all"@.len() == 3 && "unused"@.len() == 6 && "warnings"@.len() == 8);
    assert("all"@ != "unused"@);
    assert("warnings"@ != "unused"@);
    let all = all_lints();
    match lint {
        LintName::UNUSED_PARAMETER => assert(all[0] == lint),
        LintName::UNUSED_IMPORT => assert(all[1] == lint),
        LintName::UNREACHABLE_CODE => assert(all[2] == lint),
        LintName::GENERATED_DECLARATIONS => assert(all[3] == lint),
        LintName::UNFULFILLED_EXPECTATION => assert(all[4] == lint),
    }
    let g = seq![LintName::UNUSED_PARAMETER, LintName::UNUSED_IMPORT];
    if lint == LintName::UNUSED_PARAMETER {
        assert(g[0] == lint);
    }
    if lint == LintName::UNUSED_IMPORT {
        assert(g[1] == lint);
    }
}

// ================
// levels on a declaration
// ================

/// One lint set to a level by a declaration's facet.
pub type Directive = (LintName, LintLevel, Span);

/// The level a facet named `name` sets, where it names one.
pub open spec fn facet_level(name: Seq<char>) -> Option<LintLevel> {
    if name == "allow"@ {
        Some(LintLevel::Allow)
    } else if name == "expect"@ {
        Some(LintLevel::Expect)
    } else if name == "warn"@ {
        Some(LintLevel::Warn)
    } else if name == "deny"@ {
        Some(LintLevel::Deny)
    } else if name == "forbid"@ {
        Some(LintLevel::Forbid)
    } else {
        None
    }
}

/// Whether a facet named `name` sets a lint level.
pub fn is_lint_facet(name: &str) -> (lint_facet: bool)
    ensures
        lint_facet == facet_level(name@) is Some,
{
    facet_level_of(name).is_some()
}

fn facet_level_of(name: &str) -> (level: Option<LintLevel>)
    ensures
        level == facet_level(name@),
{
    let chars = crate::text::chars_of(name);
    if chars_are(chars.as_slice(), "allow") {
        Some(LintLevel::Allow)
    } else if chars_are(chars.as_slice(), "expect") {
        Some(LintLevel::Expect)
    } else if chars_are(chars.as_slice(), "warn") {
        Some(LintLevel::Warn)
    } else if chars_are(chars.as_slice(), "deny") {
        Some(LintLevel::Deny)
    } else if chars_are(chars.as_slice(), "forbid") {
        Some(LintLevel::Forbid)
    } else {
        None
    }
}

/// Whether `expr` is the bare identifier `text`.
pub open spec fn is_identifier(expr: Expr, text: Seq<char>) -> bool {
    match expr {
        Expr::Identifier { name, .. } => name@ == text,
        _ => false,
    }
}

/// The names of the arguments that are bare identifiers, in order.
pub open spec fn identifier_arguments(arguments: Seq<CallArgument>) -> Seq<Seq<char>>
    decreases arguments.len(),
{
    if arguments.len() == 0 {
        Seq::empty()
    } else {
        let earlier = identifier_arguments(arguments.drop_last());
        match arguments.last().value {
            Expr::Identifier { name, .. } => earlier.push(name@),
            _ => earlier,
        }
    }
}

/// The lint names a facet's payload selects: one identifier, or the
/// identifier arguments of `lints(...)`.
pub open spec fn selectors_of(payload: FacetPayload) -> Seq<Seq<char>> {
    match payload {
        FacetPayload::Expr(expr) => match expr {
            Expr::Identifier { name, .. } => seq![name@],
            Expr::Call { callee, arguments, .. } => if is_identifier(*callee, "lints"@) {
                identifier_arguments(arguments@)
            } else {
                Seq::empty()
            },
            _ => Seq::empty(),
        },
        _ => Seq::empty(),
    }
}

/// The directives `selectors` make at `level`: each lint a selector
/// names, or each lint of the group it names; unknown names select none.
pub open spec fn selector_directives(selectors: Seq<Seq<char>>, level: LintLevel, span: Span) -> Seq<Directive>
    decreases selectors.len(),
{
    if selectors.len() == 0 {
        Seq::empty()
    } else {
        selector_directives(selectors.drop_last(), level, span) + match lint_selection(selectors.last()) {
            Some(lints) => lints.map_values(|lint: LintName| (lint, level, span)),
            None => Seq::empty(),
        }
    }
}

/// The directives of `facets`, in order.
pub open spec fn directives_of(facets: Seq<Facet>) -> Seq<Directive>
    decreases facets.len(),
{
    if facets.len() == 0 {
        Seq::empty()
    } else {
        let facet = facets.last();
        directives_of(facets.drop_last()) + match facet_level(facet.name@) {
            Some(level) => selector_directives(selectors_of(facet.payload), level, facet.span),
            None => Seq::empty(),
        }
    }
}

/// The names a payload selects.
fn payload_selectors(payload: &FacetPayload) -> (selectors: Vec<String>)
    ensures
        selectors@.map_values(|name: String| name@) == selectors_of(*payload),
{
    let mut selectors: Vec<String> = Vec::new();
    match payload {
        FacetPayload::Expr(expr) => match expr {
            Expr::Identifier { name, .. } => {
                selectors.push(name.clone());
                assert(selectors@.map_values(|name: String| name@) =~= seq![name@]);
            },
            Expr::Call { callee, arguments, .. } => {
                let lints = match &**callee {
                    Expr::Identifier { name, .. } => crate::text::str_eq(name.as_str(), "lints"),
                    _ => false,
                };
                if lints {
                    let mut k: usize = 0;
                    assert(arguments@.take(0) =~= Seq::<CallArgument>::empty());
                    while k < arguments.len()
                        invariant
                            k <= arguments@.len(),
                            selectors@.map_values(|name: String| name@) == identifier_arguments(
                                arguments@.take(k as int),
                            ),
                        decreases arguments@.len() - k,
                    {
                        assert(arguments@.take(k + 1).drop_last() =~= arguments@.take(k as int));
                        match &arguments[k].value {
                            Expr::Identifier { name, .. } => {
                                let ghost before = selectors@;
                                selectors.push(name.clone());
                                assert(selectors@.map_values(|name: String| name@) =~= before.map_values(
                                    |name: String| name@,
                                ).push(name@));
                            },
                            _ => {},
                        }
                        k += 1;
                    }
                    assert(arguments@.take(arguments@.len() as int) =~= arguments@);
                } else {
                    assert(selectors@.map_values(|name: String| name@) =~= Seq::<Seq<char>>::empty());
                }
            },
            _ => {
                assert(selectors@.map_values(|name: String| name@) =~= Seq::<Seq<char>>::empty());
            },
        },
        _ => {
            assert(selectors@.map_values(|name: String| name@) =~= Seq::<Seq<char>>::empty());
        },
    }
    selectors
}

/// The lint levels a declaration's facets set, in order: an `allow`,
/// `expect`, `warn`, `deny` or `forbid` facet sets each lint its payload
/// names, or each lint of each group it names.
pub fn facet_directives(facets: &[Facet]) -> (directives: Vec<Directive>)
    ensures
        directives@ == directives_of(facets@),
{
    let mut directives: Vec<Directive> = Vec::new();
    let mut f: usize = 0;
    assert(facets@.take(0) =~= Seq::<Facet>::empty());
    while f < facets.len()
        invariant
            f <= facets@.len(),
            directives@ == directives_of(facets@.take(f as int)),
        decreases facets@.len() - f,
    {
        let facet = &facets[f];
        assert(facets@.take(f + 1).drop_last() =~= facets@.take(f as int));
        assert(facets@.take(f + 1).last() == facets@[f as int]);
        match facet_level_of(facet.name.as_str()) {
            None => {
                assert(directives@ =~= directives_of(facets@.take(f + 1)));
            },
            Some(level) => {
                let selectors = payload_selectors(&facet.payload);
                let ghost names = selectors@.map_values(|name: String| name@);
                let ghost start = directives@;
                let mut k: usize = 0;
                assert(names.take(0) =~= Seq::<Seq<char>>::empty());
                assert(start + selector_directives(names.take(0), level, facet.span) =~= start);
                while k < selectors.len()
                    invariant
                        k <= selectors@.len(),
                        names == selectors@.map_values(|name: String| name@),
                        directives@ == start + selector_directives(names.take(k as int), level, facet.span),
                    decreases selectors@.len() - k,
                {
                    assert(names.take(k + 1).drop_last() =~= names.take(k as int));
                    assert(names.take(k + 1).last() == selectors@[k as int]@);
                    let ghost before = directives@;
                    match LintName::named(selectors[k].as_str()) {
                        Some(lint) => {
                            directives.push((lint, level, facet.span));
                            assert(directives@ =~= before + seq![lint].map_values(
                                |lint: LintName| (lint, level, facet.span),
                            ));
                        },
                        None => match LintName::group(selectors[k].as_str()) {
                            Some(group) => {
                                let mut g: usize = 0;
                                while g < group.len()
                                    invariant
                                        g <= group@.len(),
                                        directives@ == before + group@.take(g as int).map_values(
                                            |lint: LintName| (lint, level, facet.span),
                                        ),
                                    decreases group@.len() - g,
                                {
                                    directives.push((group[g], level, facet.span));
                                    assert(group@.take(g + 1).map_values(|lint: LintName| (lint, level, facet.span))
                                        =~= group@.take(g as int).map_values(
                                        |lint: LintName| (lint, level, facet.span),
                                    ).push((group@[g as int], level, facet.span)));
                                    g += 1;
                                }
                                assert(group@.take(group@.len() as int) =~= group@);
                            },
                            None => {
                                assert(directives@ =~= before + Seq::<Directive>::empty());
                            },
                        },
                    }
                    k += 1;
                }
                assert(names.take(names.len() as int) =~= names);
            },
        }
        f += 1;
    }
    assert(facets@.take(facets@.len() as int) =~= facets@);
    directives
}

/// A lint's level once `directives` are applied in order to `start`: each
/// directive for the lint replaces the level, unless it is already
/// `forbid`.
pub open spec fn level_after(start: LintLevel, lint: LintName, directives: Seq<Directive>) -> LintLevel
    decreases directives.len(),
{
    if directives.len() == 0 {
        start
    } else {
        let earlier = level_after(start, lint, directives.drop_last());
        let last = directives.last();
        if last.0 == lint && earlier != LintLevel::Forbid {
            last.1
        } else {
            earlier
        }
    }
}

/// The level `lint` has on a declaration: the project's level, then the
/// declaration's own directives in order.
pub fn effective_level(lint: LintName, global: &LintConfig, directives: &[Directive]) -> (level: LintLevel)
    ensures
        level == level_after(global.level_of(lint), lint, directives@),
{
    let mut level = global.level(lint);
    let mut k: usize = 0;
    assert(directives@.take(0) =~= Seq::<Directive>::empty());
    while k < directives.len()
        invariant
            k <= directives@.len(),
            level == level_after(global.level_of(lint), lint, directives@.take(k as int)),
        decreases directives@.len() - k,
    {
        assert(directives@.take(k + 1).drop_last() =~= directives@.take(k as int));
        let (selected, next, _) = directives[k];
        if selected == lint && level != LintLevel::Forbid {
            level = next;
        }
        k += 1;
    }
    assert(directives@.take(directives@.len() as int) =~= directives@);
    level
}

/// A lint set to `forbid` stays forbidden, whatever a declaration says.
pub proof fn lemma_forbid_cannot_be_lowered(start: LintLevel, lint: LintName, directives: Seq<Directive>)
    requires
        start == LintLevel::Forbid,
    ensures
        level_after(start, lint, directives) == LintLevel::Forbid,
    decreases directives.len(),
{
    if directives.len() > 0 {
        lemma_forbid_cannot_be_lowered(start, lint, directives.drop_last());
    }
}

/// `diagnostic` as an error.
pub open spec fn escalated(diagnostic: Diagnostic) -> Diagnostic {
    Diagnostic {
        severity: Severity::Error,
        code: diagnostic.code,
        lint: diagnostic.lint,
        message: diagnostic.message,
        labels: diagnostic.labels,
        notes: diagnostic.notes,
        help: diagnostic.help,
    }
}

/// Reports a lint at `level`: nothing for `allow` and `expect`, the
/// warning for `warn`, and the warning as an error for `deny` and
/// `forbid`.
pub fn emit_lint(diagnostic: Diagnostic, level: LintLevel, output: &mut Vec<Diagnostic>)
    ensures
        match level {
            LintLevel::Allow | LintLevel::Expect => final(output)@ == old(output)@,
            LintLevel::Warn => final(output)@ == old(output)@.push(diagnostic),
            LintLevel::Deny | LintLevel::Forbid => final(output)@ == old(output)@.push(escalated(diagnostic)),
        },
{
    match level {
        LintLevel::Allow | LintLevel::Expect => {},
        LintLevel::Warn => output.push(diagnostic),
        LintLevel::Deny | LintLevel::Forbid => {
            let mut diagnostic = diagnostic;
            diagnostic.severity = Severity::Error;
            output.push(diagnostic);
        },
    }
}

} // verus!
