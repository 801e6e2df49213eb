//! Configuration data, system information, and prompt-template rendering.
//!
//! Reading the configuration file and the environment is left to the caller;
//! the values read are handed in as plain data and everything derived from
//! them is computed here.

use vstd::prelude::*;
use vstd::string::{StrSliceExecFns, StringExecFns};
use crate::text::{
    chars_vec, idx_of, push_range_all, replace_all, replace_chars, string_from_chars, subvec,
};

verus! {

/// The complete configuration.
#[derive(Debug)]
pub struct Config {
    pub llm: LlmConfig,
    pub prompt: PromptConfig,
    pub shell: ShellConfig,
    pub preference: PreferenceConfig,
}

/// Connection settings for the language-model backend.
#[derive(Debug)]
pub struct LlmConfig {
    pub api_key: Option<String>,
    pub model: Option<String>,
    pub base_url: Option<String>,
}

/// The system-prompt template.
#[derive(Debug)]
pub struct PromptConfig {
    pub template: String,
}

/// Shell selection: an explicit executable path, or automatic detection.
#[derive(Debug)]
pub struct ShellConfig {
    pub path: Option<String>,
}

/// User preferences.
#[derive(Debug)]
pub struct PreferenceConfig {
    pub language: Option<String>,
}

/// The default system-prompt template.
pub open spec fn default_template() -> Seq<char> {
    (
    "You are a focused shell copilot on {os} ({arch}) running {shell}.\nPlease answer in {lang}.\nAlways respond with a markdown code block containing a JSON object:\n```json\n{\"command\": \"<shell command>\", \"answer\": \"brief human-readable note\"}\n```\nPrefer safe defaults; if unsure ask via answer."
    )@
}

/// The default system-prompt template.
pub fn default_prompt_template() -> (r: String)
    ensures
        r@ == default_template(),
{
    String::from_str(
        "You are a focused shell copilot on {os} ({arch}) running {shell}.\nPlease answer in {lang}.\nAlways respond with a markdown code block containing a JSON object:\n```json\n{\"command\": \"<shell command>\", \"answer\": \"brief human-readable note\"}\n```\nPrefer safe defaults; if unsure ask via answer.",
    )
}

impl Default for LlmConfig {
    /// No key, model or endpoint configured.
    fn default() -> (r: Self)
        ensures
            r.api_key is None,
            r.model is None,
            r.base_url is None,
    {
        LlmConfig { api_key: None, model: None, base_url: None }
    }
}

impl Default for PromptConfig {
    /// The default template.
    fn default() -> (r: Self)
        ensures
            r.template@ == default_template(),
    {
        PromptConfig { template: default_prompt_template() }
    }
}

impl Default for ShellConfig {
    /// No explicit shell path.
    fn default() -> (r: Self)
        ensures
            r.path is None,
    {
        ShellConfig { path: None }
    }
}

impl Default for PreferenceConfig {
    /// No language preference.
    fn default() -> (r: Self)
        ensures
            r.language is None,
    {
        PreferenceConfig { language: None }
    }
}

impl Default for Config {
    /// Everything at its default.
    fn default() -> (r: Self)
        ensures
            r.llm.api_key is None,
            r.llm.model is None,
            r.llm.base_url is None,
            r.prompt.template@ == default_template(),
            r.shell.path is None,
            r.preference.language is None,
    {
        Config {
            llm: LlmConfig { api_key: None, model: None, base_url: None },
            prompt: PromptConfig { template: default_prompt_template() },
            shell: ShellConfig { path: None },
            preference: PreferenceConfig { language: None },
        }
    }
}

/// What was read from the running system: the platform name, the processor
/// architecture, the `SHELL` variable if set, whether this is Windows and
/// whether a PowerShell module path was seen, and the `LANG` variable if
/// set.
#[derive(Debug)]
pub struct SystemProbe {
    pub os: String,
    pub arch: String,
    pub shell_var: Option<String>,
    pub windows: bool,
    pub has_powershell: bool,
    pub lang_var: Option<String>,
}

/// The system information handed to the prompt template.
#[derive(Debug)]
pub struct SystemInfo {
    pub os: String,
    pub arch: String,
    pub shell: String,
    pub lang: String,
}

/// The part of `s` after its last slash: the whole of it when it has none.
pub open spec fn suffix_after_slash(s: Seq<char>) -> Seq<char>
    decreases s.len(),
{
    if s.len() == 0 {
        s
    } else if s.last() == '/' {
        Seq::empty()
    } else {
        suffix_after_slash(s.drop_last()).push(s.last())
    }
}

/// The shell name detected from the environment: the basename of the
/// `SHELL` variable when set; else, on Windows, powershell or cmd by the
/// module path; else unknown.
pub open spec fn shell_name_spec(
    shell_var: Option<Seq<char>>,
    windows: bool,
    has_powershell: bool,
) -> Seq<char> {
    match shell_var {
        Some(p) => suffix_after_slash(p),
        None => if windows {
            if has_powershell {
                ("powershell")@
            } else {
                ("cmd")@
            }
        } else {
            ("unknown")@
        },
    }
}

/// The language code a `LANG` value yields: the part before the first dot,
/// with underscores turned into dashes.
pub open spec fn lang_code_spec(l: Seq<char>) -> Seq<char> {
    let stem = match idx_of(l, '.') {
        Some(i) => l.take(i),
        None => l,
    };
    stem.map_values(
        |c: char|
            if c == '_' {
                '-'
            } else {
                c
            },
    )
}

/// The language the system information reports: the configured preference
/// when there is one, else the code from `LANG`, else "en-US".
pub open spec fn detect_lang_spec(
    preference: Option<Seq<char>>,
    lang_var: Option<Seq<char>>,
) -> Seq<char> {
    match preference {
        Some(p) => p,
        None => match lang_var {
            Some(l) => lang_code_spec(l),
            None => ("en-US")@,
        },
    }
}

/// The characters of `v` after the last slash.
fn chars_after_slash(v: &Vec<char>) -> (r: Vec<char>)
    ensures
        r@ == suffix_after_slash(v@),
{
    let n = v.len();
    let mut j = n;
    proof {
        assert(v@.take(n as int) =~= v@);
        assert(v@.skip(n as int).len() == 0);
        assert(suffix_after_slash(v@) =~= suffix_after_slash(v@.take(n as int)) + v@.skip(n as int));
    }
    while j > 0 && v[j - 1] != '/'
        invariant
            j <= n,
            n == v@.len(),
            suffix_after_slash(v@) == suffix_after_slash(v@.take(j as int)) + v@.skip(j as int),
        decreases j,
    {
        proof {
            assert(v@.take(j as int).last() == v@[j - 1]);
            assert(v@.take(j as int).drop_last() =~= v@.take(j - 1));
            assert(suffix_after_slash(v@.take(j - 1)).push(v@[j - 1]) + v@.skip(j as int)
                =~= suffix_after_slash(v@.take(j - 1)) + v@.skip(j - 1));
        }
        j = j - 1;
    }
    proof {
        if j > 0 {
            assert(v@.take(j as int).last() == v@[j - 1]);
            assert(suffix_after_slash(v@.take(j as int)) =~= Seq::<char>::empty());
        } else {
            assert(v@.take(0).len() == 0);
        }
        assert(suffix_after_slash(v@) =~= v@.skip(j as int));
        assert(v@.skip(j as int) =~= v@.subrange(j as int, n as int));
    }
    subvec(v, j, n)
}

impl SystemInfo {
    /// Gathers the system information from the probe and the configured
    /// language preference.
    pub fn collect(preference_lang: Option<&str>, probe: &SystemProbe) -> (r: SystemInfo)
        ensures
            r.os@ == probe.os@,
            r.arch@ == probe.arch@,
            r.shell@ == shell_name_spec(
                (match probe.shell_var {
                    Some(p) => Some(p@),
                    None => None,
                }),
                probe.windows,
                probe.has_powershell,
            ),
            r.lang@ == detect_lang_spec(
                (match preference_lang {
                    Some(p) => Some(p@),
                    None => None,
                }),
                (match probe.lang_var {
                    Some(l) => Some(l@),
                    None => None,
                }),
            ),
    {
        let shell = match &probe.shell_var {
            Some(p) => {
                let cs = chars_vec(p.as_str());
                let tail = chars_after_slash(&cs);
                string_from_chars(&tail)
            },
            None => {
                if probe.windows {
                    if probe.has_powershell {
                        String::from_str("powershell")
                    } else {
                        String::from_str("cmd")
                    }
                } else {
                    String::from_str("unknown")
                }
            },
        };
        let lang = match preference_lang {
            Some(p) => String::from_str(p),
            None => match &probe.lang_var {
                Some(l) => {
                    let cs = chars_vec(l.as_str());
                    proof {
                        assert(cs@.skip(0) =~= cs@);
                        crate::text::lemma_idx_of_bounds(cs@, '.');
                    }
                    let stem = match crate::text::find_char_from(&cs, 0, '.') {
                        Some(i) => subvec(&cs, 0, i),
                        None => subvec(&cs, 0, cs.len()),
                    };
                    proof {
                        match idx_of(cs@, '.') {
                            Some(i) => {
                                assert(cs@.subrange(0, i) =~= cs@.take(i));
                            },
                            None => {
                                assert(cs@.subrange(0, cs@.len() as int) =~= cs@);
                            },
                        }
                    }
                    let mut mapped: Vec<char> = Vec::new();
                    let mut i: usize = 0;
                    let ghost stem_view = stem@;
                    proof {
                        assert(mapped@ =~= stem_view.take(0).map_values(
                            |c: char|
                                if c == '_' {
                                    '-'
                                } else {
                                    c
                                },
                        ));
                    }
                    while i < stem.len()
                        invariant
                            i <= stem@.len(),
                            stem@ == stem_view,
                            mapped@ == stem_view.take(i as int).map_values(
                                |c: char|
                                    if c == '_' {
                                        '-'
                                    } else {
                                        c
                                    },
                            ),
                        decreases stem@.len() - i,
                    {
                        let c = stem[i];
                        if c == '_' {
                            mapped.push('-');
                        } else {
                            mapped.push(c);
                        }
                        proof {
                            assert(mapped@ =~= stem_view.take(i + 1).map_values(
                                |c: char|
                                    if c == '_' {
                                        '-'
                                    } else {
                                        c
                                    },
                            ));
                        }
                        i = i + 1;
                    }
                    proof {
                        assert(stem_view.take(stem_view.len() as int) =~= stem_view);
                    }
                    string_from_chars(&mapped)
                },
                None => String::from_str("en-US"),
            },
        };
        SystemInfo { os: probe.os.clone(), arch: probe.arch.clone(), shell, lang }
    }

    /// The template variables this system information provides, in a fixed
    /// order: os, arch, shell, lang.
    pub fn to_vars(&self) -> (r: Vec<(String, String)>)
        ensures
            r@.len() == 4,
            r@[0].0@ == ("os")@ && r@[0].1@ == self.os@,
            r@[1].0@ == ("arch")@ && r@[1].1@ == self.arch@,
            r@[2].0@ == ("shell")@ && r@[2].1@ == self.shell@,
            r@[3].0@ == ("lang")@ && r@[3].1@ == self.lang@,
    {
        let mut v: Vec<(String, String)> = Vec::new();
        v.push((String::from_str("os"), self.os.clone()));
        v.push((String::from_str("arch"), self.arch.clone()));
        v.push((String::from_str("shell"), self.shell.clone()));
        v.push((String::from_str("lang"), self.lang.clone()));
        v
    }
}

/// The views of a variable list's keys and values.
pub open spec fn pairs_view(vs: Seq<(String, String)>) -> Seq<(Seq<char>, Seq<char>)> {
    vs.map_values(|p: (String, String)| (p.0@, p.1@))
}

/// The placeholder a key is written as in a template.
pub open spec fn placeholder(k: Seq<char>) -> Seq<char> {
    seq!['{'] + k + seq!['}']
}

/// The template with each variable's placeholder replaced by its value, one
/// variable after the other; placeholders of missing variables stay as they
/// are.
pub open spec fn render_spec(t: Seq<char>, vs: Seq<(Seq<char>, Seq<char>)>) -> Seq<char>
    decreases vs.len(),
{
    if vs.len() == 0 {
        t
    } else {
        render_spec(replace_all(t, placeholder(vs[0].0), vs[0].1), vs.skip(1))
    }
}

/// Renders the prompt template: replaces `{key}` with the value for each
/// variable in order, leaving unknown placeholders untouched.
pub fn render_prompt(template: &str, vars: &Vec<(String, String)>) -> (r: String)
    ensures
        r@ == render_spec(template@, pairs_view(vars@)),
{
    let mut cur: Vec<char> = chars_vec(template);
    let mut idx: usize = 0;
    proof {
        assert(pairs_view(vars@).skip(0) =~= pairs_view(vars@));
    }
    while idx < vars.len()
        invariant
            idx <= vars@.len(),
            render_spec(template@, pairs_view(vars@)) == render_spec(
                cur@,
                pairs_view(vars@).skip(idx as int),
            ),
        decreases vars@.len() - idx,
    {
        let pair = &vars[idx];
        let kc = chars_vec(pair.0.as_str());
        let vc = chars_vec(pair.1.as_str());
        let mut pat: Vec<char> = Vec::new();
        pat.push('{');
        push_range_all(&mut pat, &kc);
        pat.push('}');
        proof {
            assert(pat@ =~= placeholder(vars@[idx as int].0@));
        }
        let next = replace_chars(&cur, &pat, &vc);
        proof {
            let vs = pairs_view(vars@);
            assert(vs[idx as int] == (vars@[idx as int].0@, vars@[idx as int].1@));
            assert(vs.skip(idx as int)[0] == vs[idx as int]);
            assert(vs.skip(idx as int).skip(1) =~= vs.skip(idx + 1));
            assert(next@ == replace_all(cur@, placeholder(vs[idx as int].0), vs[idx as int].1));
        }
        cur = next;
        idx = idx + 1;
    }
    proof {
        assert(pairs_view(vars@).skip(vars@.len() as int).len() == 0);
    }
    string_from_chars(&cur)
}

/// The shell executable to spawn: on Windows, powershell or cmd by the
/// module path; otherwise the `SHELL` variable, or `/bin/bash` without one.
pub open spec fn shell_exe_spec(
    windows: bool,
    has_powershell: bool,
    shell_var: Option<Seq<char>>,
) -> Seq<char> {
    if windows {
        if has_powershell {
            ("powershell.exe")@
        } else {
            ("cmd.exe")@
        }
    } else {
        match shell_var {
            Some(s) => s,
            None => ("/bin/bash")@,
        }
    }
}

/// The shell executable to spawn, from what the environment shows.
pub fn detect_shell(windows: bool, has_powershell: bool, shell_var: Option<&str>) -> (r: String)
    ensures
        r@ == shell_exe_spec(
            windows,
            has_powershell,
            (match shell_var {
                Some(s) => Some(s@),
                None => None,
            }),
        ),
{
    if windows {
        if has_powershell {
            String::from_str("powershell.exe")
        } else {
            String::from_str("cmd.exe")
        }
    } else {
        match shell_var {
            Some(s) => String::from_str(s),
            None => String::from_str("/bin/bash"),
        }
    }
}

} // verus!
