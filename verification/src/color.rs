//! Color selection for the rendered rows' names.
//!
//! A name without a dot is shown as a folder; a name with one is colored by
//! the first extension group that one of its suffixes belongs to, or by the
//! default file color.

use vstd::prelude::*;
use vstd::string::StrSliceExecFns;
use vstd::string::StringExecFns;

verus! {

/// Whether `suffix` ends `name`.
pub open spec fn spec_ends_with(name: Seq<char>, suffix: Seq<char>) -> bool {
    name.len() >= suffix.len() && name.skip(name.len() - suffix.len()) == suffix
}

/// Whether some extension of a group ends the name.
pub open spec fn group_matches(exts: Seq<Seq<char>>, name: Seq<char>) -> bool {
    exists|e: int| 0 <= e < exts.len() && spec_ends_with(name, #[trigger] exts[e])
}

/// The index of the first group whose extensions hold a suffix of the name,
/// or -1.
pub open spec fn first_group(groups: Seq<(Seq<Seq<char>>, Seq<char>)>, name: Seq<char>) -> int
    decreases groups.len(),
{
    if groups.len() == 0 {
        -1
    } else if group_matches(groups[0].0, name) {
        0
    } else {
        let r = first_group(groups.skip(1), name);
        if r == -1 {
            -1
        } else {
            r + 1
        }
    }
}

/// The extension groups as sequences of characters.
pub open spec fn groups_view(gs: Seq<(Vec<String>, String)>) -> Seq<(Seq<Seq<char>>, Seq<char>)> {
    Seq::new(gs.len(), |i: int| (gs[i].0.deep_view(), gs[i].1@))
}

/// The color a file name gets: the code of the first matching extension
/// group, or the default file code.
pub open spec fn spec_file_color(
    groups: Seq<(Seq<Seq<char>>, Seq<char>)>,
    default_file: Seq<char>,
    name: Seq<char>,
) -> Seq<char> {
    let g = first_group(groups, name);
    if g == -1 {
        default_file
    } else {
        groups[g].1
    }
}

/// A color scheme: ANSI escape codes for folders, for files of known
/// extension groups, and for every other file.
pub struct ColorScheme {
    /// The reset code written after each colored name.
    pub reset: String,
    /// The code for folders: names without a dot.
    pub folder: String,
    /// The code for files whose extension no group lists.
    pub default_file: String,
    /// The extension groups with their codes; the first matching group
    /// wins.
    pub file_colors: Vec<(Vec<String>, String)>,
}

/// Whether `name` ends with `suffix`.
fn ends_with(name: &str, suffix: &str) -> (r: bool)
    ensures
        r == spec_ends_with(name@, suffix@),
{
    let nl = name.unicode_len();
    let sl = suffix.unicode_len();
    if sl > nl {
        return false;
    }
    let mut t: usize = 0;
    while t < sl
        invariant
            sl <= nl,
            nl == name@.len(),
            sl == suffix@.len(),
            t <= sl,
            forall|u: int| 0 <= u < t ==> name@[nl - sl + u] == suffix@[u],
        decreases sl - t,
    {
        if name.get_char(nl - sl + t) != suffix.get_char(t) {
            proof {
                assert(name@.skip(nl as int - sl as int)[t as int] == name@[nl - sl + t]);
            }
            return false;
        }
        t = t + 1;
    }
    proof {
        assert(name@.skip(nl as int - sl as int) =~= suffix@);
    }
    true
}

/// Whether the name holds a dot anywhere.
fn has_dot(name: &str) -> (r: bool)
    ensures
        r == name@.contains('.'),
{
    let n = name.unicode_len();
    let mut t: usize = 0;
    while t < n
        invariant
            n == name@.len(),
            t <= n,
            forall|u: int| 0 <= u < t ==> name@[u] != '.',
        decreases n - t,
    {
        if name.get_char(t) == '.' {
            return true;
        }
        t = t + 1;
    }
    false
}

impl ColorScheme {
    /// Create a new color scheme with predefined colors.
    pub fn new() -> (c: Self)
        ensures
            c.reset@ == "\x1b[0m"@,
            c.folder@ == "\x1b[1;37m"@,
            c.default_file@ == "\x1b[1;34m"@,
            groups_view(c.file_colors@) == seq![
                (seq![".fish"@, ".zsh"@, ".sh"@, ".nu"@], "\x1b[1;32m"@),
                (
                    seq![".toml"@, ".json"@, ".yml"@, ".yaml"@, ".xml"@, ".ini"@, ".conf"@],
                    "\x1b[1;33m"@,
                ),
                (seq![".md"@, ".txt"@], "\x1b[1;36m"@),
                (seq![".rs"@, ".py"@, ".go"@, ".jl"@], "\x1b[1;31m"@),
                (seq![".plist"@, ".sublime"@], "\x1b[1;35m"@),
            ],
    {
        let mut shells: Vec<String> = Vec::new();
        shells.push(String::from_str(".fish"));
        shells.push(String::from_str(".zsh"));
        shells.push(String::from_str(".sh"));
        shells.push(String::from_str(".nu"));
        let mut configs: Vec<String> = Vec::new();
        configs.push(String::from_str(".toml"));
        configs.push(String::from_str(".json"));
        configs.push(String::from_str(".yml"));
        configs.push(String::from_str(".yaml"));
        configs.push(String::from_str(".xml"));
        configs.push(String::from_str(".ini"));
        configs.push(String::from_str(".conf"));
        let mut texts: Vec<String> = Vec::new();
        texts.push(String::from_str(".md"));
        texts.push(String::from_str(".txt"));
        let mut sources: Vec<String> = Vec::new();
        sources.push(String::from_str(".rs"));
        sources.push(String::from_str(".py"));
        sources.push(String::from_str(".go"));
        sources.push(String::from_str(".jl"));
        let mut plists: Vec<String> = Vec::new();
        plists.push(String::from_str(".plist"));
        plists.push(String::from_str(".sublime"));
        proof {
            assert(shells.deep_view() =~= seq![".fish"@, ".zsh"@, ".sh"@, ".nu"@]);
            assert(configs.deep_view() =~= seq![
                ".toml"@,
                ".json"@,
                ".yml"@,
                ".yaml"@,
                ".xml"@,
                ".ini"@,
                ".conf"@,
            ]);
            assert(texts.deep_view() =~= seq![".md"@, ".txt"@]);
            assert(sources.deep_view() =~= seq![".rs"@, ".py"@, ".go"@, ".jl"@]);
            assert(plists.deep_view() =~= seq![".plist"@, ".sublime"@]);
        }
        let mut file_colors: Vec<(Vec<String>, String)> = Vec::new();
        file_colors.push((shells, String::from_str("\x1b[1;32m")));
        file_colors.push((configs, String::from_str("\x1b[1;33m")));
        file_colors.push((texts, String::from_str("\x1b[1;36m")));
        file_colors.push((sources, String::from_str("\x1b[1;31m")));
        file_colors.push((plists, String::from_str("\x1b[1;35m")));
        let c = ColorScheme {
            reset: String::from_str("\x1b[0m"),
            folder: String::from_str("\x1b[1;37m"),
            default_file: String::from_str("\x1b[1;34m"),
            file_colors,
        };
        proof {
            assert(groups_view(c.file_colors@) =~= seq![
                (seq![".fish"@, ".zsh"@, ".sh"@, ".nu"@], "\x1b[1;32m"@),
                (
                    seq![".toml"@, ".json"@, ".yml"@, ".yaml"@, ".xml"@, ".ini"@, ".conf"@],
                    "\x1b[1;33m"@,
                ),
                (seq![".md"@, ".txt"@], "\x1b[1;36m"@),
                (seq![".rs"@, ".py"@, ".go"@, ".jl"@], "\x1b[1;31m"@),
                (seq![".plist"@, ".sublime"@], "\x1b[1;35m"@),
            ]);
        }
        c
    }

    /// Returns the color code for a given file based on its extension: the
    /// code of the first group holding a suffix of the name, else the
    /// default file code.
    pub fn get_color_code_for_file(&self, name: &str) -> (code: &str)
        ensures
            code@ == spec_file_color(groups_view(self.file_colors@), self.default_file@, name@),
    {
        let ghost groups = groups_view(self.file_colors@);
        let mut g: usize = 0;
        while g < self.file_colors.len()
            invariant
                groups == groups_view(self.file_colors@),
                groups.len() == self.file_colors@.len(),
                g <= groups.len(),
                forall|k: int| 0 <= k < g ==> !group_matches(#[trigger] groups[k].0, name@),
            decreases groups.len() - g,
        {
            let exts = &self.file_colors[g].0;
            let mut e: usize = 0;
            while e < exts.len()
                invariant
                    g < self.file_colors@.len(),
                    exts == &self.file_colors@[g as int].0,
                    e <= exts@.len(),
                    groups == groups_view(self.file_colors@),
                    groups.len() == self.file_colors@.len(),
                    forall|k: int| 0 <= k < g ==> !group_matches(#[trigger] groups[k].0, name@),
                    forall|u: int|
                        0 <= u < e ==> !spec_ends_with(name@, #[trigger] exts.deep_view()[u]),
                decreases exts@.len() - e,
            {
                if ends_with(name, exts[e].as_str()) {
                    proof {
                        assert(exts.deep_view()[e as int] == exts@[e as int]@);
                        assert(group_matches(groups[g as int].0, name@));
                        lemma_first_group_at(groups, name@, g as int);
                    }
                    return self.file_colors[g].1.as_str();
                }
                e = e + 1;
            }
            proof {
                assert(forall|u: int|
                    0 <= u < groups[g as int].0.len() ==> !spec_ends_with(
                        name@,
                        #[trigger] groups[g as int].0[u],
                    ));
                assert(!group_matches(groups[g as int].0, name@));
            }
            g = g + 1;
        }
        proof {
            lemma_first_group_none(groups, name@);
        }
        self.default_file.as_str()
    }

    /// The full output line for one row: the glyph prefix, a space, the
    /// color for the name — the folder color when the name has no dot —
    /// then the name and the reset code.
    pub fn colored_line(&self, prefix: &str, name: &str) -> (line: String)
        ensures
            line@ == prefix@ + " "@ + (if name@.contains('.') {
                spec_file_color(groups_view(self.file_colors@), self.default_file@, name@)
            } else {
                self.folder@
            }) + name@ + self.reset@,
    {
        let color = if has_dot(name) {
            self.get_color_code_for_file(name)
        } else {
            self.folder.as_str()
        };
        let mut line = String::new();
        line.append(prefix);
        line.append(" ");
        line.append(color);
        line.append(name);
        line.append(self.reset.as_str());
        proof {
            assert(line@ =~= prefix@ + " "@ + color@ + name@ + self.reset@);
        }
        line
    }
}

impl Default for ColorScheme {
    /// The predefined colors.
    fn default() -> (c: Self)
        ensures
            c.reset@ == "\x1b[0m"@,
            c.folder@ == "\x1b[1;37m"@,
            c.default_file@ == "\x1b[1;34m"@,
    {
        Self::new()
    }
}

proof fn lemma_first_group_at(groups: Seq<(Seq<Seq<char>>, Seq<char>)>, name: Seq<char>, g: int)
    requires
        0 <= g < groups.len(),
        group_matches(groups[g].0, name),
        forall|k: int| 0 <= k < g ==> !group_matches(#[trigger] groups[k].0, name),
    ensures
        first_group(groups, name) == g,
    decreases groups.len(),
{
    if g > 0 {
        lemma_first_group_at(groups.skip(1), name, g - 1);
        assert(forall|k: int| 0 <= k < groups.skip(1).len() ==> groups.skip(1)[k] == groups[k + 1]);
    }
}

proof fn lemma_first_group_none(groups: Seq<(Seq<Seq<char>>, Seq<char>)>, name: Seq<char>)
    requires
        forall|k: int| 0 <= k < groups.len() ==> !group_matches(#[trigger] groups[k].0, name),
    ensures
        first_group(groups, name) == -1,
    decreases groups.len(),
{
    if groups.len() > 0 {
        lemma_first_group_none(groups.skip(1), name);
        assert(forall|k: int| 0 <= k < groups.skip(1).len() ==> groups.skip(1)[k] == groups[k + 1]);
    }
}

} // verus!
