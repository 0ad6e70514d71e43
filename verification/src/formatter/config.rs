//! The formatter's settings and the `key = value` file that sets them.
use vstd::prelude::*;

use crate::text::{
    chars_are, decimal, decimal_string, key_value, lines_of, parse_usize, parse_usize_spec, setting_of,
    split_lines, split_setting, string_from_chars,
};

verus! {

#[derive(Debug, Clone, Copy, PartialEq, Eq, Structural)]
pub enum NewlineStyle {
    Auto,
    Unix,
    Windows,
}

#[derive(Debug, Clone, PartialEq, Eq, Structural)]
pub struct FormatConfig {
    pub indent_width: usize,
    pub hard_tabs: bool,
    pub indent_facets: bool,
    pub facets_on_new_line: bool,
    pub pub_on_declaration: bool,
    pub return_type_on_declaration: bool,
    pub collapse_short_multiline_generics: bool,
    pub max_blank_lines: usize,
    pub max_width: usize,
    pub comment_width: usize,
    pub newline_style: NewlineStyle,
}

/// The settings a configuration file starts from.
pub open spec fn default_config() -> FormatConfig {
    FormatConfig {
        indent_width: 4,
        hard_tabs: false,
        indent_facets: true,
        facets_on_new_line: true,
        pub_on_declaration: true,
        return_type_on_declaration: true,
        collapse_short_multiline_generics: true,
        max_blank_lines: 1,
        max_width: 100,
        comment_width: 80,
        newline_style: NewlineStyle::Auto,
    }
}

impl Default for FormatConfig {
    fn default() -> (config: FormatConfig)
        ensures
            config == default_config(),
    {
        FormatConfig {
            indent_width: 4,
            hard_tabs: false,
            indent_facets: true,
            facets_on_new_line: true,
            pub_on_declaration: true,
            return_type_on_declaration: true,
            collapse_short_multiline_generics: true,
            max_blank_lines: 1,
            max_width: 100,
            comment_width: 80,
            newline_style: NewlineStyle::Auto,
        }
    }
}

// ================
// the settings file
// ================

pub open spec fn line_message(number: nat, message: Seq<char>) -> Seq<char> {
    "line "@ + decimal(number) + ": "@ + message
}

/// `bool::from_str`.
pub open spec fn bool_named(value: Seq<char>) -> Option<bool> {
    if value == "true"@ {
        Some(true)
    } else if value == "false"@ {
        Some(false)
    } else {
        None
    }
}

/// What a boolean setting becomes, or the error for the line.
pub open spec fn bool_setting(value: Seq<char>, number: nat, key: Seq<char>) -> Result<bool, Seq<char>> {
    match bool_named(value) {
        Some(b) => Ok(b),
        None => Err(line_message(number, "`"@ + key + "` must be true or false"@)),
    }
}

/// What a count setting becomes, or the error for the line.
pub open spec fn count_setting(value: Seq<char>, number: nat, key: Seq<char>) -> Result<usize, Seq<char>> {
    match parse_usize_spec(value) {
        Some(n) => Ok(n),
        None => Err(line_message(number, "`"@ + key + "` must be a non-negative integer"@)),
    }
}

/// What a width setting becomes (a count above zero), or the error.
pub open spec fn width_setting(value: Seq<char>, number: nat, key: Seq<char>) -> Result<usize, Seq<char>> {
    match count_setting(value, number, key) {
        Err(e) => Err(e),
        Ok(n) => if n == 0 {
            Err(line_message(number, "`"@ + key + "` must be greater than zero"@))
        } else {
            Ok(n)
        },
    }
}

/// `config` with setting `key` set from `value` (line `number`).
pub open spec fn with_setting(config: FormatConfig, key: Seq<char>, value: Seq<char>, number: nat) -> Result<
    FormatConfig,
    Seq<char>,
> {
    if key == "indent_width"@ {
        match count_setting(value, number, key) {
            Ok(n) => Ok(FormatConfig { indent_width: n, ..config }),
            Err(e) => Err(e),
        }
    } else if key == "hard_tabs"@ {
        match bool_setting(value, number, key) {
            Ok(b) => Ok(FormatConfig { hard_tabs: b, ..config }),
            Err(e) => Err(e),
        }
    } else if key == "indent_facets"@ {
        match bool_setting(value, number, key) {
            Ok(b) => Ok(FormatConfig { indent_facets: b, ..config }),
            Err(e) => Err(e),
        }
    } else if key == "facets_on_new_line"@ {
        match bool_setting(value, number, key) {
            Ok(b) => Ok(FormatConfig { facets_on_new_line: b, ..config }),
            Err(e) => Err(e),
        }
    } else if key == "pub_on_declaration"@ {
        match bool_setting(value, number, key) {
            Ok(b) => Ok(FormatConfig { pub_on_declaration: b, ..config }),
            Err(e) => Err(e),
        }
    } else if key == "return_type_on_declaration"@ {
        match bool_setting(value, number, key) {
            Ok(b) => Ok(FormatConfig { return_type_on_declaration: b, ..config }),
            Err(e) => Err(e),
        }
    } else if key == "collapse_short_multiline_generics"@ {
        match bool_setting(value, number, key) {
            Ok(b) => Ok(FormatConfig { collapse_short_multiline_generics: b, ..config }),
            Err(e) => Err(e),
        }
    } else if key == "max_blank_lines"@ {
        match count_setting(value, number, key) {
            Ok(n) => Ok(FormatConfig { max_blank_lines: n, ..config }),
            Err(e) => Err(e),
        }
    } else if key == "max_width"@ {
        match width_setting(value, number, key) {
            Ok(n) => Ok(FormatConfig { max_width: n, ..config }),
            Err(e) => Err(e),
        }
    } else if key == "comment_width"@ {
        match width_setting(value, number, key) {
            Ok(n) => Ok(FormatConfig { comment_width: n, ..config }),
            Err(e) => Err(e),
        }
    } else if key == "newline_style"@ {
        if value == "Auto"@ {
            Ok(FormatConfig { newline_style: NewlineStyle::Auto, ..config })
        } else if value == "Unix"@ {
            Ok(FormatConfig { newline_style: NewlineStyle::Unix, ..config })
        } else if value == "Windows"@ {
            Ok(FormatConfig { newline_style: NewlineStyle::Windows, ..config })
        } else {
            Err(line_message(number, "`"@ + key + "` must be Auto, Unix, or Windows"@))
        }
    } else {
        Err(line_message(number, "unknown option `"@ + key + "`"@))
    }
}

/// Each option of the settings file sets its own setting and leaves every
/// other one as it was; `newline_style` takes `Auto`, `Unix` or `Windows`.
pub proof fn lemma_each_option_sets_its_own_setting(config: FormatConfig, value: Seq<char>, number: nat)
    ensures
        with_setting(config, "indent_width"@, value, number) matches Ok(c) ==> c == (FormatConfig { indent_width: c.indent_width, ..config }),
        with_setting(config, "hard_tabs"@, value, number) matches Ok(c) ==> c == (FormatConfig { hard_tabs: c.hard_tabs, ..config }),
        with_setting(config, "indent_facets"@, value, number) matches Ok(c) ==> c == (FormatConfig { indent_facets: c.indent_facets, ..config }),
        with_setting(config, "facets_on_new_line"@, value, number) matches Ok(c) ==> c == (FormatConfig { facets_on_new_line: c.facets_on_new_line, ..config }),
        with_setting(config, "pub_on_declaration"@, value, number) matches Ok(c) ==> c == (FormatConfig { pub_on_declaration: c.pub_on_declaration, ..config }),
        with_setting(config, "return_type_on_declaration"@, value, number) matches Ok(c) ==> c == (FormatConfig { return_type_on_declaration: c.return_type_on_declaration, ..config }),
        with_setting(config, "collapse_short_multiline_generics"@, value, number) matches Ok(c) ==> c == (FormatConfig { collapse_short_multiline_generics: c.collapse_short_multiline_generics, ..config }),
        with_setting(config, "max_blank_lines"@, value, number) matches Ok(c) ==> c == (FormatConfig { max_blank_lines: c.max_blank_lines, ..config }),
        with_setting(config, "max_width"@, value, number) matches Ok(c) ==> c == (FormatConfig { max_width: c.max_width, ..config }),
        with_setting(config, "comment_width"@, value, number) matches Ok(c) ==> c == (FormatConfig { comment_width: c.comment_width, ..config }),
        with_setting(config, "newline_style"@, value, number) matches Ok(c) ==> c == (FormatConfig { newline_style: c.newline_style, ..config }),
        with_setting(config, "newline_style"@, "Unix"@, number) == Ok::<FormatConfig, Seq<char>>(FormatConfig { newline_style: NewlineStyle::Unix, ..config }),
        with_setting(config, "newline_style"@, "Windows"@, number) == Ok::<FormatConfig, Seq<char>>(FormatConfig { newline_style: NewlineStyle::Windows, ..config }),
        with_setting(config, "newline_style"@, "Auto"@, number) == Ok::<FormatConfig, Seq<char>>(FormatConfig { newline_style: NewlineStyle::Auto, ..config }),
{
    reveal_strlit("indent_width");
    reveal_strlit("hard_tabs");
    reveal_strlit("indent_facets");
    reveal_strlit("facets_on_new_line");
    reveal_strlit("pub_on_declaration");
    reveal_strlit("return_type_on_declaration");
    reveal_strlit("collapse_short_multiline_generics");
    reveal_strlit("max_blank_lines");
    reveal_strlit("max_width");
    reveal_strlit("comment_width");
    reveal_strlit("newline_style");
    reveal_strlit("Unix");
    reveal_strlit("Windows");
    reveal_strlit("Auto");
    assert("pub_on_declaration"@[0] != "facets_on_new_line"@[0]);
    assert("max_width"@[0] != "hard_tabs"@[0]);
    assert("comment_width"@[0] != "indent_facets"@[0]);
    assert("newline_style"@[0] != "indent_facets"@[0]);
    assert("newline_style"@[0] != "comment_width"@[0]);
    assert("Unix"@[0] != "Auto"@[0]);
    assert("Windows"@[0] != "Auto"@[0]);
    assert("Windows"@[0] != "Unix"@[0]);
}

/// The settings after the lines from `k` on, or the first error.
pub open spec fn config_from(lines: Seq<Seq<char>>, k: int, config: FormatConfig) -> Result<FormatConfig, Seq<char>>
    decreases lines.len() - k,
{
    if k < 0 || k >= lines.len() {
        Ok(config)
    } else {
        let line = crate::text::setting_text(lines[k]);
        if line.len() == 0 {
            config_from(lines, k + 1, config)
        } else {
            match key_value(line) {
                None => Err(line_message((k + 1) as nat, "expected `key = value`"@)),
                Some((key, value)) => match with_setting(config, key, value, (k + 1) as nat) {
                    Err(e) => Err(e),
                    Ok(next) => config_from(lines, k + 1, next),
                },
            }
        }
    }
}

/// The settings a configuration text gives: one `key = value` per line
/// over the defaults; `#` starts a comment.
pub open spec fn config_spec(source: Seq<char>) -> Result<FormatConfig, Seq<char>> {
    config_from(split_lines(source), 0, default_config())
}

/// Reads formatter settings from a configuration text.
pub fn parse_config(source: &str) -> (result: Result<FormatConfig, String>)
    ensures
        match config_spec(source@) {
            Ok(config) => result == Ok::<FormatConfig, String>(config),
            Err(message) => result matches Err(m) && m@ == message,
        },
{
    let lines = lines_of(source);
    let ghost all = split_lines(source@);
    let mut config = FormatConfig::default();
    let mut k: usize = 0;
    while k < lines.len()
        invariant
            lines@.len() == all.len(),
            all == split_lines(source@),
            forall|i: int| 0 <= i < lines@.len() ==> #[trigger] lines@[i]@ == all[i],
            k <= lines@.len(),
            config_spec(source@) == config_from(all, k as int, config),
        decreases lines@.len() - k,
    {
        let text = setting_of(lines[k].as_slice());
        assert(text@ == crate::text::setting_text(all[k as int]));
        if text.len() == 0 {
            k += 1;
            continue;
        }
        let (key, value) = match split_setting(text.as_slice()) {
            Some(parts) => parts,
            None => {
                return Err(line_error(k, "expected `key = value`"));
            },
        };
        config = match apply_setting(config, key.as_slice(), value.as_slice(), k) {
            Ok(next) => next,
            Err(message) => {
                return Err(message);
            },
        };
        k += 1;
    }
    Ok(config)
}

/// `line N: message` for the line at index `k`.
fn line_error(k: usize, message: &str) -> (text: String)
    requires
        k < usize::MAX,
    ensures
        text@ == line_message((k + 1) as nat, message@),
{
    let mut text = String::from_str("line ");
    let number = decimal_string((k + 1) as u64);
    text.append(number.as_str());
    text.append(": ");
    text.append(message);
    text
}

/// `line N: `key` <rest>`.
fn key_error(k: usize, key: &[char], rest: &str) -> (text: String)
    requires
        k < usize::MAX,
    ensures
        text@ == line_message((k + 1) as nat, "`"@ + key@ + rest@),
{
    let mut text = line_error(k, "`");
    let name = string_from_chars(key);
    text.append(name.as_str());
    text.append(rest);
    assert(text@ =~= line_message((k + 1) as nat, "`"@ + key@ + rest@));
    text
}

fn parse_bool_setting(value: &[char], k: usize, key: &[char]) -> (result: Result<bool, String>)
    requires
        k < usize::MAX,
    ensures
        match bool_setting(value@, (k + 1) as nat, key@) {
            Ok(b) => result == Ok::<bool, String>(b),
            Err(message) => result matches Err(m) && m@ == message,
        },
{
    if chars_are(value, "true") {
        Ok(true)
    } else if chars_are(value, "false") {
        Ok(false)
    } else {
        Err(key_error(k, key, "` must be true or false"))
    }
}

fn parse_count_setting(value: &[char], k: usize, key: &[char]) -> (result: Result<usize, String>)
    requires
        k < usize::MAX,
    ensures
        match count_setting(value@, (k + 1) as nat, key@) {
            Ok(n) => result == Ok::<usize, String>(n),
            Err(message) => result matches Err(m) && m@ == message,
        },
{
    match parse_usize(value) {
        Some(n) => Ok(n),
        None => Err(key_error(k, key, "` must be a non-negative integer")),
    }
}

fn parse_width_setting(value: &[char], k: usize, key: &[char]) -> (result: Result<usize, String>)
    requires
        k < usize::MAX,
    ensures
        match width_setting(value@, (k + 1) as nat, key@) {
            Ok(n) => result == Ok::<usize, String>(n),
            Err(message) => result matches Err(m) && m@ == message,
        },
{
    let n = parse_count_setting(value, k, key)?;
    if n == 0 {
        return Err(key_error(k, key, "` must be greater than zero"));
    }
    Ok(n)
}

fn apply_setting(config: FormatConfig, key: &[char], value: &[char], k: usize) -> (result: Result<
    FormatConfig,
    String,
>)
    requires
        k < usize::MAX,
    ensures
        match with_setting(config, key@, value@, (k + 1) as nat) {
            Ok(next) => result == Ok::<FormatConfig, String>(next),
            Err(message) => result matches Err(m) && m@ == message,
        },
{
    let mut config = config;
    if chars_are(key, "indent_width") {
        config.indent_width = parse_count_setting(value, k, key)?;
    } else if chars_are(key, "hard_tabs") {
        config.hard_tabs = parse_bool_setting(value, k, key)?;
    } else if chars_are(key, "indent_facets") {
        config.indent_facets = parse_bool_setting(value, k, key)?;
    } else if chars_are(key, "facets_on_new_line") {
        config.facets_on_new_line = parse_bool_setting(value, k, key)?;
    } else if chars_are(key, "pub_on_declaration") {
        config.pub_on_declaration = parse_bool_setting(value, k, key)?;
    } else if chars_are(key, "return_type_on_declaration") {
        config.return_type_on_declaration = parse_bool_setting(value, k, key)?;
    } else if chars_are(key, "collapse_short_multiline_generics") {
        config.collapse_short_multiline_generics = parse_bool_setting(value, k, key)?;
    } else if chars_are(key, "max_blank_lines") {
        config.max_blank_lines = parse_count_setting(value, k, key)?;
    } else if chars_are(key, "max_width") {
        config.max_width = parse_width_setting(value, k, key)?;
    } else if chars_are(key, "comment_width") {
        config.comment_width = parse_width_setting(value, k, key)?;
    } else if chars_are(key, "newline_style") {
        if chars_are(value, "Auto") {
            config.newline_style = NewlineStyle::Auto;
        } else if chars_are(value, "Unix") {
            config.newline_style = NewlineStyle::Unix;
        } else if chars_are(value, "Windows") {
            config.newline_style = NewlineStyle::Windows;
        } else {
            return Err(key_error(k, key, "` must be Auto, Unix, or Windows"));
        }
    } else {
        let mut text = line_error(k, "unknown option `");
        let name = string_from_chars(key);
        text.append(name.as_str());
        text.append("`");
        assert(text@ =~= line_message((k + 1) as nat, "unknown option `"@ + key@ + "`"@));
        return Err(text);
    }
    Ok(config)
}

} // verus!
