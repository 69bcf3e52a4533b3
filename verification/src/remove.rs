//! Removing a tool. A link is deleted only while it still points into the
//! state directory; anything else has been taken over by something else.

use vstd::prelude::*;

use crate::config::{AptEntry, NodeEntry};
use crate::failure::Failure;
use crate::lock::ToolLock;
use crate::path;
use crate::sources::apt;
use crate::sources::node;
use crate::sources::node::ResolvedManager;
use crate::strings;
use crate::text;

verus! {

/// A command that undoes what a package manager did.
#[derive(Debug)]
pub struct Uninstall {
    pub program: String,
    pub args: Vec<String>,
    /// What is said before it runs.
    pub notice: Option<String>,
    /// What it is called in errors.
    pub label: String,
}

#[verifier::ext_equal]
pub struct UninstallView {
    pub program: Seq<char>,
    pub args: Seq<Seq<char>>,
    pub notice: Option<Seq<char>>,
    pub label: Seq<char>,
}

impl View for Uninstall {
    type V = UninstallView;

    open spec fn view(&self) -> UninstallView {
        UninstallView {
            program: self.program@,
            args: text::texts(self.args@),
            notice: text::opt_text(self.notice),
            label: self.label@,
        }
    }
}

/// How a node package is removed.
pub open spec fn node_uninstall(source: Seq<char>, manager: Seq<char>) -> Result<
    UninstallView,
    Seq<Seq<char>>,
> {
    if !"node:"@.is_prefix_of(source) {
        Err(seq!["malformed node source in rig.lock: "@ + source])
    } else {
        let name = source.skip("node:"@.len() as int);
        if manager == ResolvedManager::Bun.recorded() {
            Ok(
                UninstallView {
                    program: "bun"@,
                    args: seq!["remove"@, "-g"@, name],
                    notice: None,
                    label: "`bun remove -g "@ + name + "`"@,
                },
            )
        } else if manager == ResolvedManager::Npm.recorded() {
            Ok(
                UninstallView {
                    program: "npm"@,
                    args: seq!["uninstall"@, "-g"@, name],
                    notice: None,
                    label: "`npm uninstall -g "@ + name + "`"@,
                },
            )
        } else {
            Err(seq!["unknown node package manager recorded in rig.lock: "@ + manager])
        }
    }
}

pub open spec fn uninstall_result(r: Result<Uninstall, Failure>) -> Result<
    UninstallView,
    Seq<Seq<char>>,
> {
    match r {
        Ok(u) => Ok(u@),
        Err(f) => Err(f@),
    }
}

/// The command that removes a node package. Only the manager can do that: its
/// tree lies elsewhere.
pub fn uninstall_node_package(tool: &ToolLock, manager: &str) -> (r: Result<Uninstall, Failure>)
    ensures
        uninstall_result(r) == node_uninstall(tool.source@, manager@),
        forall|name: Seq<char>|
            tool.source@ == #[trigger] ("node:"@ + name) ==> {
                &&& manager@ == "bun"@ ==> r is Ok && r->Ok_0@.program == "bun"@ && r->Ok_0@.args
                    == seq!["remove"@, "-g"@, name]
                &&& manager@ == "npm"@ ==> r is Ok && r->Ok_0@.program == "npm"@ && r->Ok_0@.args
                    == seq!["uninstall"@, "-g"@, name]
            },
        r is Ok <==> "node:"@.is_prefix_of(tool.source@) && (manager@ == "bun"@ || manager@
            == "npm"@),
{
    proof {
        assert forall|name: Seq<char>| tool.source@ == #[trigger] ("node:"@ + name) implies
            "node:"@.is_prefix_of(tool.source@) && tool.source@.skip("node:"@.len() as int)
            == name by {
            assert(tool.source@.take("node:"@.len() as int) =~= "node:"@);
            assert(tool.source@.skip("node:"@.len() as int) =~= name);
        }
    }
    let name = match strings::strip_prefix(tool.source.as_str(), "node:") {
        Some(name) => name,
        None => {
            return Err(
                Failure::new(
                    strings::cat2("malformed node source in rig.lock: ", tool.source.as_str()),
                ),
            );
        },
    };
    let resolved = match ResolvedManager::parse(manager) {
        Ok(resolved) => resolved,
        Err(f) => {
            return Err(f);
        },
    };
    proof {
        if ResolvedManager::Bun.recorded() == ResolvedManager::Npm.recorded() {
            crate::sources::node::lemma_recorded_manager(
                ResolvedManager::Bun,
                ResolvedManager::Npm,
            );
        }
    }
    let (program, verb, label) = match resolved {
        ResolvedManager::Bun => ("bun", "remove", strings::cat3("`bun remove -g ", name, "`")),
        ResolvedManager::Npm => (
            "npm",
            "uninstall",
            strings::cat3("`npm uninstall -g ", name, "`"),
        ),
    };
    let mut args: Vec<String> = Vec::new();
    args.push(verb.to_owned());
    args.push("-g".to_owned());
    args.push(name.to_owned());
    assert(text::texts(args@) =~= seq![verb@, "-g"@, name@]);
    Ok(Uninstall { program: program.to_owned(), args, notice: None, label })
}

/// How a system package is removed.
pub open spec fn apt_uninstall(source: Seq<char>) -> Result<UninstallView, Seq<Seq<char>>> {
    if !"apt:"@.is_prefix_of(source) {
        Err(seq!["malformed apt source in rig.lock: "@ + source])
    } else {
        let name = source.skip("apt:"@.len() as int);
        Ok(
            UninstallView {
                program: "sudo"@,
                args: seq!["apt-get"@, "remove"@, "-y"@, name],
                notice: Some("removing "@ + name + " via `sudo apt-get remove -y`"@),
                label: "apt-get remove -y "@ + name,
            },
        )
    }
}

/// The command that removes a system package.
pub fn uninstall_apt_package(tool: &ToolLock) -> (r: Result<Uninstall, Failure>)
    ensures
        uninstall_result(r) == apt_uninstall(tool.source@),
        forall|name: Seq<char>|
            tool.source@ == #[trigger] ("apt:"@ + name) ==> {
                &&& r is Ok
                &&& r->Ok_0@.program == "sudo"@
                &&& r->Ok_0@.args == seq!["apt-get"@, "remove"@, "-y"@, name]
            },
        r is Err <==> !"apt:"@.is_prefix_of(tool.source@),
{
    proof {
        assert forall|name: Seq<char>| tool.source@ == #[trigger] ("apt:"@ + name) implies
            "apt:"@.is_prefix_of(tool.source@) && tool.source@.skip("apt:"@.len() as int)
            == name by {
            assert(tool.source@.take("apt:"@.len() as int) =~= "apt:"@);
            assert(tool.source@.skip("apt:"@.len() as int) =~= name);
        }
    }
    match strings::strip_prefix(tool.source.as_str(), "apt:") {
        Some(name) => {
            let mut args: Vec<String> = Vec::new();
            args.push("apt-get".to_owned());
            args.push("remove".to_owned());
            args.push("-y".to_owned());
            args.push(name.to_owned());
            assert(text::texts(args@) =~= seq!["apt-get"@, "remove"@, "-y"@, name@]);
            Ok(
                Uninstall {
                    program: "sudo".to_owned(),
                    args,
                    notice: Some(
                        strings::cat3("removing ", name, " via `sudo apt-get remove -y`"),
                    ),
                    label: strings::cat2("apt-get remove -y ", name),
                },
            )
        },
        None => Err(
            Failure::new(
                strings::cat2("malformed apt source in rig.lock: ", tool.source.as_str()),
            ),
        ),
    }
}

/// Where a link at a path points.
pub open spec fn link_place(p: Seq<char>, target: Seq<char>) -> Seq<char> {
    if path::is_absolute(target) {
        target
    } else {
        path::join(
            match path::parent(p) {
                Some(dir) => dir,
                None => "/"@,
            },
            target,
        )
    }
}

/// Whether a link may be deleted: it points into the state directory. `target`
/// is what the link holds, if there is a link.
pub fn owns_symlink(p: &str, target: Option<&str>, state_dir: &str) -> (r: bool)
    ensures
        r == match target {
            Some(t) => path::starts_with(link_place(p@, t@), state_dir@),
            None => false,
        },
{
    let target = match target {
        Some(target) => target,
        None => {
            return false;
        },
    };
    if path::is_absolute_path(target) {
        path::path_starts_with(target, state_dir)
    } else {
        let dir = match path::path_parent(p) {
            Some(dir) => dir,
            None => "/".to_owned(),
        };
        let place = path::join_path(dir.as_str(), target);
        path::path_starts_with(place.as_str(), state_dir)
    }
}

/// What has to be done to remove a tool, in order.
#[derive(Debug)]
pub struct Removal {
    pub uninstall: Option<Uninstall>,
    /// Links to delete, each if it is still owned.
    pub links: Vec<String>,
    /// A directory to delete, if it is there.
    pub tree: Option<String>,
}

#[verifier::ext_equal]
pub struct RemovalView {
    pub uninstall: Option<UninstallView>,
    pub links: Seq<Seq<char>>,
    pub tree: Option<Seq<char>>,
}

impl View for Removal {
    type V = RemovalView;

    open spec fn view(&self) -> RemovalView {
        RemovalView {
            uninstall: match self.uninstall {
                Some(u) => Some(u@),
                None => None,
            },
            links: text::texts(self.links@),
            tree: text::opt_text(self.tree),
        }
    }
}

/// The command that a tool's source needs, if any.
pub open spec fn uninstall_for(tool: ToolLock) -> Result<Option<UninstallView>, Seq<Seq<char>>> {
    match tool.manager {
        Some(manager) => match node_uninstall(tool.source@, manager@) {
            Ok(u) => Ok(Some(u)),
            Err(e) => Err(e),
        },
        None => if "apt:"@.is_prefix_of(tool.source@) {
            match apt_uninstall(tool.source@) {
                Ok(u) => Ok(Some(u)),
                Err(e) => Err(e),
            }
        } else {
            Ok(None)
        },
    }
}

/// The directory of a tool, if it lies in the state directory.
pub open spec fn owned_tree(pkg: Option<Seq<char>>, state_dir: Seq<char>) -> Option<Seq<char>> {
    match pkg {
        Some(p) => if path::starts_with(p, state_dir) {
            Some(p)
        } else {
            None
        },
        None => None,
    }
}

pub open spec fn removal(tool: ToolLock, state_dir: Seq<char>) -> Result<
    RemovalView,
    Seq<Seq<char>>,
> {
    match uninstall_for(tool) {
        Ok(uninstall) => Ok(
            RemovalView {
                uninstall,
                links: tool@.bins + tool@.completions,
                tree: owned_tree(tool@.pkg, state_dir),
            },
        ),
        Err(e) => Err(e),
    }
}

/// Decides what has to be done to remove a tool.
pub fn remove(tool: &ToolLock, state_dir: &str) -> (r: Result<Removal, Failure>)
    ensures
        match removal(*tool, state_dir@) {
            Ok(v) => r is Ok && r->Ok_0@ == v,
            Err(chain) => r is Err && r->Err_0@ == chain,
        },
{
    let uninstall = match &tool.manager {
        Some(manager) => match uninstall_node_package(tool, manager.as_str()) {
            Ok(u) => Some(u),
            Err(f) => {
                return Err(f);
            },
        },
        None => {
            if strings::starts_with(tool.source.as_str(), "apt:") {
                match uninstall_apt_package(tool) {
                    Ok(u) => Some(u),
                    Err(f) => {
                        return Err(f);
                    },
                }
            } else {
                None
            }
        },
    };
    let mut links = strings::clone_texts(&tool.bins);
    let mut more = strings::clone_texts(&tool.completions);
    let ghost first = text::texts(links@);
    let ghost second = text::texts(more@);
    links.append(&mut more);
    assert(text::texts(links@) =~= first + second);
    let tree = match &tool.pkg {
        Some(p) => {
            if path::path_starts_with(p.as_str(), state_dir) {
                Some(p.as_str().to_owned())
            } else {
                None
            }
        },
        None => None,
    };
    Ok(Removal { uninstall, links, tree })
}

/// Whatever the records say, a directory that is deleted lies in the state
/// directory.
pub proof fn lemma_only_own_trees(tool: ToolLock, state_dir: Seq<char>)
    ensures
        match removal(tool, state_dir) {
            Ok(v) => match v.tree {
                Some(p) => path::starts_with(p, state_dir),
                None => true,
            },
            Err(_) => true,
        },
{
}

/// What undoes the install of a system package runs the same program on the
/// same package, with the verb turned round.
pub proof fn lemma_apt_install_is_undone(entry: AptEntry, home: Seq<char>)
    ensures
        apt::fetch_steps(entry, home).len() == 1,
        apt::fetch_steps(entry, home)[0].step is Run,
        apt_uninstall("apt:"@ + entry.name@) is Ok,
        ({
            let made = apt::fetch_steps(entry, home)[0].step;
            let undone = apt_uninstall("apt:"@ + entry.name@)->Ok_0;
            &&& made->program == undone.program
            &&& undone.program == "sudo"@
            &&& made->args == undone.args.update(1, "install"@)
            &&& undone.args == seq!["apt-get"@, "remove"@, "-y"@, entry.name@]
            &&& undone.args[1] != made->args[1]
        }),
{
    reveal_strlit("install");
    reveal_strlit("remove");
    let source = "apt:"@ + entry.name@;
    assert(source.take("apt:"@.len() as int) =~= "apt:"@);
    assert(source.skip("apt:"@.len() as int) =~= entry.name@);
    let made = apt::fetch_steps(entry, home)[0].step;
    let undone = apt_uninstall(source)->Ok_0;
    assert(made->args =~= undone.args.update(1, "install"@));
    assert("install"@.len() != "remove"@.len());
}

/// What undoes the install of a node package runs the manager that made it, on
/// the same package, and does not install.
pub proof fn lemma_node_install_is_undone(
    entry: NodeEntry,
    home: Seq<char>,
    version: Seq<char>,
    manager: ResolvedManager,
    prefix_dir: Seq<char>,
)
    ensures
        node_uninstall("node:"@ + entry.name@, manager.recorded()) is Ok,
        ({
            let made = node::manager_step(entry, home, version, manager, prefix_dir).step;
            let undone = node_uninstall("node:"@ + entry.name@, manager.recorded())->Ok_0;
            &&& made is Run
            &&& undone.program == made->program
            &&& undone.program == if manager == ResolvedManager::Bun {
                "bun"@
            } else {
                "npm"@
            }
            &&& made->args == seq!["install"@, "-g"@, entry.name@ + "@"@ + version]
            &&& undone.args == seq![
                if manager == ResolvedManager::Bun {
                    "remove"@
                } else {
                    "uninstall"@
                },
                "-g"@,
                entry.name@,
            ]
            &&& undone.args[0] != made->args[0]
        }),
{
    reveal_strlit("install");
    reveal_strlit("remove");
    reveal_strlit("uninstall");
    reveal_strlit("bun");
    reveal_strlit("npm");
    assert("bun"@[0] != "npm"@[0]);
    let source = "node:"@ + entry.name@;
    assert(source.take("node:"@.len() as int) =~= "node:"@);
    assert(source.skip("node:"@.len() as int) =~= entry.name@);
    assert("install"@.len() != "remove"@.len());
    assert("install"@.len() != "uninstall"@.len());
}

/// Removing a tool touches each of its links, its commands before its
/// completions, and nothing else; its directory goes if and only if it lies in
/// the state directory; and a package manager is called exactly for a record
/// that names one or is of a system package.
pub proof fn lemma_removal_is_complete(tool: ToolLock, state_dir: Seq<char>, p: Seq<char>)
    requires
        removal(tool, state_dir) is Ok,
    ensures
        ({
            let v = removal(tool, state_dir)->Ok_0;
            &&& v.links.contains(p) <==> text::texts(tool.bins@).contains(p) || text::texts(
                tool.completions@,
            ).contains(p)
            &&& v.links.len() == tool.bins@.len() + tool.completions@.len()
            &&& forall|i: int|
                0 <= i < tool.bins@.len() ==> #[trigger] v.links[i] == tool.bins@[i]@
            &&& v.tree == Some(p) <==> tool.pkg is Some && tool.pkg->0@ == p && path::components(
                state_dir,
            ).is_prefix_of(path::components(p))
            &&& v.uninstall is Some <==> tool.manager is Some || "apt:"@.is_prefix_of(tool.source@)
            &&& tool.manager is Some ==> v.uninstall == Some(
                node_uninstall(tool.source@, tool.manager->0@)->Ok_0,
            )
            &&& tool.manager is None && v.uninstall is Some ==> v.uninstall == Some(
                apt_uninstall(tool.source@)->Ok_0,
            )
        }),
{
    let v = removal(tool, state_dir)->Ok_0;
    let bins = text::texts(tool.bins@);
    let completions = text::texts(tool.completions@);
    assert(v.links == bins + completions);
    if bins.contains(p) {
        let i = choose|i: int| 0 <= i < bins.len() && bins[i] == p;
        assert(v.links[i] == p);
    }
    if completions.contains(p) {
        let i = choose|i: int| 0 <= i < completions.len() && completions[i] == p;
        assert(v.links[bins.len() + i] == p);
    }
    if v.links.contains(p) {
        let i = choose|i: int| 0 <= i < v.links.len() && v.links[i] == p;
        if i < bins.len() {
            assert(bins[i] == p);
        } else {
            assert(completions[i - bins.len()] == p);
        }
    }
}

/// A removal is refused exactly for a record of a package that cannot be named
/// to its manager.
pub proof fn lemma_removal_refused(tool: ToolLock, state_dir: Seq<char>)
    ensures
        removal(tool, state_dir) is Err <==> {
            &&& tool.manager is Some
            &&& !"node:"@.is_prefix_of(tool.source@) || (tool.manager->0@ != "bun"@
                && tool.manager->0@ != "npm"@)
        },
{
}

/// A link is deleted only if what it names, taken from where the link stands,
/// lies in the state directory.
pub proof fn lemma_where_a_link_leads(p: Seq<char>, target: Seq<char>)
    ensures
        target.len() > 0 && target[0] == '/' ==> link_place(p, target) == target,
        !(target.len() > 0 && target[0] == '/') && path::parent(p) is Some ==> link_place(p, target)
            == path::join(path::parent(p)->0, target),
        !(target.len() > 0 && target[0] == '/') && path::parent(p) is None ==> link_place(p, target)
            == path::join("/"@, target),
{
}

/// What is said while a package is removed names the package and the command
/// that removes it.
pub proof fn lemma_removal_is_announced(name: Seq<char>)
    ensures
        ({
            let apt = apt_uninstall("apt:"@ + name);
            let bun = node_uninstall("node:"@ + name, "bun"@);
            let npm = node_uninstall("node:"@ + name, "npm"@);
            &&& apt is Ok && bun is Ok && npm is Ok
            &&& apt->Ok_0.notice == Some("removing "@ + name + " via `sudo apt-get remove -y`"@)
            &&& apt->Ok_0.label == "apt-get remove -y "@ + name
            &&& bun->Ok_0.label == "`bun remove -g "@ + name + "`"@
            &&& npm->Ok_0.label == "`npm uninstall -g "@ + name + "`"@
            &&& bun->Ok_0.notice is None && npm->Ok_0.notice is None
        }),
{
    reveal_strlit("bun");
    reveal_strlit("npm");
    assert("bun"@[0] != "npm"@[0]);
    let a = "apt:"@ + name;
    let n = "node:"@ + name;
    assert(a.take("apt:"@.len() as int) =~= "apt:"@);
    assert(a.skip("apt:"@.len() as int) =~= name);
    assert(n.take("node:"@.len() as int) =~= "node:"@);
    assert(n.skip("node:"@.len() as int) =~= name);
}

} // verus!
