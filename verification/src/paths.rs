//! Where the state directory and its files lie. Every path is computed from
//! the home directory that the caller hands in.

use vstd::prelude::*;

use crate::path;
use crate::sources::collect;
use crate::strings;

verus! {

/// A path in which a leading `~` names the home directory.
pub open spec fn expanded(home: Seq<char>, p: Seq<char>) -> Seq<char> {
    if "~/"@.is_prefix_of(p) {
        path::join(home, p.skip("~/"@.len() as int))
    } else if p == "~"@ {
        home
    } else {
        p
    }
}

/// Replaces a leading `~` by the home directory.
pub fn expand_tilde_in(home: &str, path: &str) -> (r: String)
    ensures
        r@ == expanded(home@, path@),
{
    if let Some(rest) = strings::strip_prefix(path, "~/") {
        return path::join_path(home, rest);
    }
    if strings::same(path, "~") {
        return home.to_owned();
    }
    path.to_owned()
}

/// The file that a user configures everything in.
pub open spec fn config_place(home: Seq<char>) -> Seq<char> {
    path::join(home, ".rig.toml"@)
}

pub fn config_file(home: &str) -> (r: String)
    ensures
        r@ == config_place(home@),
{
    path::join_path(home, ".rig.toml")
}

/// The place that messages name is the place where the configuration lies.
pub proof fn lemma_hint_names_the_file(home: Seq<char>)
    ensures
        expanded(home, collect::CONFIG_PATH_HINT@) == config_place(home),
{
    reveal_strlit("~/.rig.toml");
    reveal_strlit("~/");
    reveal_strlit(".rig.toml");
    let hint = collect::CONFIG_PATH_HINT@;
    assert(hint == "~/.rig.toml"@);
    assert(hint.take(2) =~= "~/"@);
    assert(hint.skip(2) =~= ".rig.toml"@);
}

/// The paths of one user's installation.
#[derive(Debug)]
pub struct Layout {
    pub config_path: String,
    pub state_dir: String,
    pub lock_path: String,
    /// The file whose advisory lock serializes the writers of the state
    /// directory. It holds nothing.
    pub lock_file: String,
    pub init_zsh_path: String,
    pub completions_dir: String,
    pub cache_dir: String,
    /// The one directory outside the state directory.
    pub prefix_bin_dir: String,
    /// The clones of plugins, which are updated in place.
    pub plugins_dir: String,
}

#[verifier::ext_equal]
pub struct LayoutView {
    pub config_path: Seq<char>,
    pub state_dir: Seq<char>,
    pub lock_path: Seq<char>,
    pub lock_file: Seq<char>,
    pub init_zsh_path: Seq<char>,
    pub completions_dir: Seq<char>,
    pub cache_dir: Seq<char>,
    pub prefix_bin_dir: Seq<char>,
    pub plugins_dir: Seq<char>,
}

impl View for Layout {
    type V = LayoutView;

    open spec fn view(&self) -> LayoutView {
        LayoutView {
            config_path: self.config_path@,
            state_dir: self.state_dir@,
            lock_path: self.lock_path@,
            lock_file: self.lock_file@,
            init_zsh_path: self.init_zsh_path@,
            completions_dir: self.completions_dir@,
            cache_dir: self.cache_dir@,
            prefix_bin_dir: self.prefix_bin_dir@,
            plugins_dir: self.plugins_dir@,
        }
    }
}

/// The state directory under a home directory.
pub open spec fn state_dir(home: Seq<char>) -> Seq<char> {
    path::join(home, ".local/share/rig"@)
}

/// The layout under a home directory, with commands linked under a prefix.
pub open spec fn layout(home: Seq<char>, prefix: Seq<char>) -> LayoutView {
    let state = state_dir(home);
    LayoutView {
        config_path: path::join(home, ".config/rig/config.toml"@),
        state_dir: state,
        lock_path: path::join(state, "rig.lock"@),
        lock_file: path::join(state, "rig.lock.lock"@),
        init_zsh_path: path::join(state, "init.zsh"@),
        completions_dir: path::join(state, "completions"@),
        cache_dir: path::join(state, "cache"@),
        prefix_bin_dir: path::join(expanded(home, prefix), "bin"@),
        plugins_dir: path::join(state, "plugins"@),
    }
}

/// The prefix decides where commands are linked and nothing else: every
/// process of a user finds the same state directory, lock and configuration.
pub proof fn lemma_prefix_moves_only_bins(home: Seq<char>, one: Seq<char>, other: Seq<char>)
    ensures
        (LayoutView { prefix_bin_dir: layout(home, other).prefix_bin_dir, ..layout(home, one) })
            == layout(home, other),
{
}

/// The directory that holds a tool's versions.
pub open spec fn tool_dir(state: Seq<char>, tool: Seq<char>) -> Seq<char> {
    path::join(path::join(state, "pkg"@), tool)
}

/// The directory that holds one version of a tool.
pub open spec fn version_dir(state: Seq<char>, tool: Seq<char>, version: Seq<char>) -> Seq<char> {
    path::join(tool_dir(state, tool), version)
}

impl Layout {
    pub fn new(home: &str, prefix: &str) -> (r: Self)
        ensures
            r@ == layout(home@, prefix@),
    {
        let state_dir = path::join_path(home, ".local/share/rig");
        let prefix_dir = expand_tilde_in(home, prefix);
        let state = state_dir.as_str();
        Layout {
            config_path: path::join_path(home, ".config/rig/config.toml"),
            lock_path: path::join_path(state, "rig.lock"),
            lock_file: path::join_path(state, "rig.lock.lock"),
            init_zsh_path: path::join_path(state, "init.zsh"),
            completions_dir: path::join_path(state, "completions"),
            cache_dir: path::join_path(state, "cache"),
            prefix_bin_dir: path::join_path(prefix_dir.as_str(), "bin"),
            plugins_dir: path::join_path(state, "plugins"),
            state_dir,
        }
    }

    /// The directory that holds a tool's versions.
    pub fn tool_pkg_dir(&self, tool: &str) -> (r: String)
        ensures
            r@ == tool_dir(self.state_dir@, tool@),
    {
        let pkg = path::join_path(self.state_dir.as_str(), "pkg");
        path::join_path(pkg.as_str(), tool)
    }

    /// The directory that holds one version of a tool.
    pub fn pkg_dir(&self, tool: &str, version: &str) -> (r: String)
        ensures
            r@ == version_dir(self.state_dir@, tool@, version@),
    {
        let dir = self.tool_pkg_dir(tool);
        path::join_path(dir.as_str(), version)
    }
}

/// Everything that is kept lies in one directory under the home directory; the
/// commands lie under the prefix, and the files that must not be mixed up have
/// names of their own.
pub proof fn lemma_where_things_lie(home: Seq<char>, prefix: Seq<char>)
    ensures
        ({
            let all = layout(home, prefix);
            let state = path::join(home, ".local/share/rig"@);
            &&& all.state_dir == state
            &&& all.lock_path == path::join(state, "rig.lock"@)
            &&& all.lock_file == path::join(state, "rig.lock.lock"@)
            &&& all.init_zsh_path == path::join(state, "init.zsh"@)
            &&& all.completions_dir == path::join(state, "completions"@)
            &&& all.cache_dir == path::join(state, "cache"@)
            &&& all.plugins_dir == path::join(state, "plugins"@)
            &&& all.prefix_bin_dir == path::join(expanded(home, prefix), "bin"@)
            &&& all.lock_path != all.lock_file
            &&& all.lock_path != all.init_zsh_path
        }),
{
    reveal_strlit("rig.lock");
    reveal_strlit("rig.lock.lock");
    reveal_strlit("init.zsh");
    let state = state_dir(home);
    let a = path::join(state, "rig.lock"@);
    let b = path::join(state, "rig.lock.lock"@);
    let c = path::join(state, "init.zsh"@);
    assert(b.len() == a.len() + 5);
    assert(a.last() == 'k');
    assert(c.last() == 'h');
}

/// A leading `~` is the home directory, alone or before a slash; any other path
/// stays as it is.
pub proof fn lemma_home_is_expanded(home: Seq<char>, rest: Seq<char>, other: Seq<char>)
    requires
        other.len() == 0 || other[0] != '~',
    ensures
        expanded(home, seq!['~']) == home,
        expanded(home, seq!['~', '/'] + rest) == path::join(home, rest),
        expanded(home, other) == other,
{
    reveal_strlit("~/");
    reveal_strlit("~");
    let p = seq!['~', '/'] + rest;
    assert(p.take(2) =~= "~/"@);
    assert(p.skip(2) =~= rest);
    assert(seq!['~'] =~= "~"@);
    if "~/"@.is_prefix_of(other) {
        assert(other[0] == "~/"@[0]);
    }
}

} // verus!
