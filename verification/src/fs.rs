//! The tree entry model and the filter-aware tree builder.
//!
//! The builder walks a snapshot of a filesystem subtree ([`FsNode`]) under a
//! [`Cli`] configuration and produces a [`TreeEntry`] rooted at the snapshot's
//! root. Every filter decision (hidden names, ignore marks, depth bound,
//! entry-type filters) is specified by `spec_keep` and `spec_descend`, and the
//! whole walk by `spec_build`.

use vstd::prelude::*;
use crate::cli::{Cli, TreeError};

verus! {

/// One node of the built tree: a file, or a directory with an ordered
/// children sequence. `children` is `Some` (possibly empty) exactly for
/// directories, so "file" and "directory with no visible children" stay
/// distinct.
#[derive(Debug)]
pub struct TreeEntry {
    pub name: String,
    pub is_dir: bool,
    pub children: Option<Vec<TreeEntry>>,
}

/// The mathematical shape of a tree entry: the tagged distinction between a
/// file and a directory with an ordered children sequence.
pub enum TreeModel {
    File { name: Seq<char> },
    Dir { name: Seq<char>, children: Seq<TreeModel> },
}

impl TreeModel {
    pub open spec fn name(self) -> Seq<char> {
        match self {
            TreeModel::File { name } => name,
            TreeModel::Dir { name, .. } => name,
        }
    }
}

impl TreeEntry {
    /// The abstract tree this entry represents: a file when `children` is
    /// absent, a directory over the children's own models when present.
    pub open spec fn model(self) -> TreeModel
        decreases self, 0int,
    {
        match self.children {
            Option::None => TreeModel::File { name: self.name@ },
            Option::Some(cs) => {
                proof {
                    assert(decreases_to!(self => cs));
                    assert(decreases_to!(cs => cs@));
                }
                TreeModel::Dir {
                    name: self.name@,
                    children: Self::model_list(cs@, cs@.len() as int),
                }
            },
        }
    }

    /// The models of the first `i` entries of `cs`, in order.
    pub open spec fn model_list(cs: Seq<TreeEntry>, i: int) -> Seq<TreeModel>
        decreases cs, i,
    {
        if i <= 0 || i > cs.len() {
            Seq::empty()
        } else {
            Self::model_list(cs, i - 1).push(cs[i - 1].model())
        }
    }

    /// Well-formed: the directory flag and the presence of `children` agree,
    /// here and in every descendant.
    pub open spec fn wf(self) -> bool
        decreases self,
    {
        &&& (self.is_dir <==> self.children is Some)
        &&& (self.children matches Some(cs) ==> forall|i: int|
            0 <= i < cs@.len() ==> (#[trigger] cs@[i]).wf())
    }
}

/// `model_list(cs, i)` has one model per listed entry, in listing order.
pub proof fn lemma_entry_model_list(cs: Seq<TreeEntry>, i: int)
    requires
        0 <= i <= cs.len(),
    ensures
        TreeEntry::model_list(cs, i).len() == i,
        forall|k: int| 0 <= k < i ==> TreeEntry::model_list(cs, i)[k] == (#[trigger] cs[k]).model(),
    decreases i,
{
    if i > 0 {
        lemma_entry_model_list(cs, i - 1);
    }
}

/// A snapshot of one filesystem node, as handed to the builder: the entry's
/// final name segment, whether version-control ignore rules exclude it, and,
/// for a directory, its immediate entries in listing order.
#[derive(Debug)]
pub enum FsNode {
    File { name: String, ignored: bool },
    Dir { name: String, ignored: bool, entries: Vec<FsNode> },
}

/// The mathematical shape of a filesystem snapshot node.
pub enum FsModel {
    File { name: Seq<char>, ignored: bool },
    Dir { name: Seq<char>, ignored: bool, entries: Seq<FsModel> },
}

impl FsModel {
    pub open spec fn name(self) -> Seq<char> {
        match self {
            FsModel::File { name, .. } => name,
            FsModel::Dir { name, .. } => name,
        }
    }

    pub open spec fn ignored(self) -> bool {
        match self {
            FsModel::File { ignored, .. } => ignored,
            FsModel::Dir { ignored, .. } => ignored,
        }
    }

    pub open spec fn is_dir(self) -> bool {
        self is Dir
    }
}

impl FsNode {
    /// The abstract snapshot this node represents.
    pub open spec fn model(self) -> FsModel
        decreases self, 0int,
    {
        match self {
            FsNode::File { name, ignored } => FsModel::File { name: name@, ignored },
            FsNode::Dir { name, ignored, entries } => {
                proof {
                    assert(decreases_to!(self => entries));
                    assert(decreases_to!(entries => entries@));
                }
                FsModel::Dir {
                    name: name@,
                    ignored,
                    entries: Self::model_list(entries@, entries@.len() as int),
                }
            },
        }
    }

    /// The models of the first `i` entries of `cs`, in order.
    pub open spec fn model_list(cs: Seq<FsNode>, i: int) -> Seq<FsModel>
        decreases cs, i,
    {
        if i <= 0 || i > cs.len() {
            Seq::empty()
        } else {
            Self::model_list(cs, i - 1).push(cs[i - 1].model())
        }
    }
}

/// `model_list(cs, i)` has one model per listed node, in listing order.
pub proof fn lemma_fs_model_list(cs: Seq<FsNode>, i: int)
    requires
        0 <= i <= cs.len(),
    ensures
        FsNode::model_list(cs, i).len() == i,
        forall|k: int| 0 <= k < i ==> FsNode::model_list(cs, i)[k] == (#[trigger] cs[k]).model(),
    decreases i,
{
    if i > 0 {
        lemma_fs_model_list(cs, i - 1);
    }
}

/// A name is hidden when it starts with a dot.
pub open spec fn spec_is_hidden(name: Seq<char>) -> bool {
    name.len() > 0 && name[0] == '.'
}

/// Whether a filesystem entry survives the hidden, ignore and type filters.
pub open spec fn spec_keep(cli: Cli, e: FsModel) -> bool {
    &&& (spec_is_hidden(e.name()) ==> cli.hidden || cli.all)
    &&& (e.ignored() ==> cli.ignored || cli.all)
    &&& (cli.dirs_only ==> e.is_dir())
    &&& (cli.files_only ==> !e.is_dir())
}

/// Whether children sitting at `depth` (the root's immediate children sit at
/// depth 1) are populated at all under the configured depth bound.
pub open spec fn spec_descend(cli: Cli, depth: int) -> bool {
    cli.depth matches Some(d) ==> depth <= d
}

/// The tree node built from snapshot node `e`, whose children sit at `depth`.
/// A directory keeps its (filtered) children only while the depth bound
/// allows a descent; a file never has any.
pub open spec fn spec_build_node(cli: Cli, e: FsModel, depth: int) -> TreeModel
    decreases e, 0int,
{
    match e {
        FsModel::File { name, .. } => TreeModel::File { name },
        FsModel::Dir { name, entries, .. } => TreeModel::Dir {
            name,
            children: if spec_descend(cli, depth) {
                spec_build_list(cli, entries, entries.len() as int, depth)
            } else {
                Seq::empty()
            },
        },
    }
}

/// The children built from the first `i` snapshot entries, all sitting at
/// `depth`: entries that fail a filter are skipped, the others are built in
/// listing order.
pub open spec fn spec_build_list(cli: Cli, entries: Seq<FsModel>, i: int, depth: int) -> Seq<
    TreeModel,
>
    decreases entries, i,
{
    if i <= 0 || i > entries.len() {
        Seq::empty()
    } else {
        let rest = spec_build_list(cli, entries, i - 1, depth);
        if spec_keep(cli, entries[i - 1]) {
            rest.push(spec_build_node(cli, entries[i - 1], depth + 1))
        } else {
            rest
        }
    }
}

/// The whole walk: the root is always a directory named after the snapshot
/// root; its children come from the root's entries when the snapshot root is
/// a directory and the depth bound allows any descent at all.
pub open spec fn spec_build(cli: Cli, root: FsModel) -> TreeModel {
    TreeModel::Dir {
        name: root.name(),
        children: match root {
            FsModel::Dir { entries, .. } => if spec_descend(cli, 1) {
                spec_build_list(cli, entries, entries.len() as int, 1)
            } else {
                Seq::empty()
            },
            FsModel::File { .. } => Seq::empty(),
        },
    }
}

/// Tracks the levels that may still be descended: when a depth bound `d` is
/// configured and children at `depth` are next, `rem` holds `d - depth + 1`.
pub open spec fn rem_tracks(bound: Option<usize>, rem: Option<usize>, depth: int) -> bool {
    match bound {
        Option::None => rem is None,
        Option::Some(d) => rem matches Some(r) && 1 <= depth <= d + 1 && r == d - depth + 1,
    }
}

/// Reports whether `name` is a hidden name, one whose first character is a
/// dot.
pub fn is_hidden(name: &str) -> (r: bool)
    ensures
        r == spec_is_hidden(name@),
{
    if name.unicode_len() == 0 {
        false
    } else {
        name.get_char(0) == '.'
    }
}

impl TreeEntry {
    /// A bare entry with the given name and kind and no children slot.
    pub fn new(name: String, is_dir: bool) -> (r: Self)
        ensures
            r.name == name,
            r.is_dir == is_dir,
            r.children is None,
    {
        Self { name, is_dir, children: None }
    }

    /// A file entry: no children slot at all.
    pub fn new_file(name: String) -> (r: Self)
        ensures
            r.name == name,
            !r.is_dir,
            r.children is None,
            r.model() == (TreeModel::File { name: name@ }),
            r.wf(),
    {
        Self::new(name, false)
    }

    /// A directory entry with an empty children sequence.
    pub fn new_dir(name: String) -> (r: Self)
        ensures
            r.name == name,
            r.is_dir,
            r.children matches Some(cs) && cs@.len() == 0,
            r.model() == (TreeModel::Dir { name: name@, children: Seq::<TreeModel>::empty() }),
            r.wf(),
    {
        let mut new = Self::new(name, true);
        new.children = Some(Vec::new());
        new
    }

    /// Builds the tree for the snapshot `root` under the configuration `cli`.
    ///
    /// Fails with `PathNotFound` exactly when the requested path did not
    /// exist (no snapshot); on success the result is a well-formed directory
    /// node carrying precisely the filtered walk of the snapshot.
    pub fn build(cli: &Cli, root: &Option<FsNode>) -> (r: Result<TreeEntry, TreeError>)
        ensures
            r is Ok <==> root is Some,
            r matches Ok(t) ==> {
                &&& t.model() == spec_build(*cli, root->0.model())
                &&& t.wf()
                &&& t.is_dir
                &&& t.children is Some
            },
            r matches Err(e) ==> e == TreeError::PathNotFound && root is None,
    {
        match root {
            Option::None => Err(TreeError::PathNotFound),
            Option::Some(node) => {
                let rem = cli.depth;
                let descend = match rem {
                    Option::None => true,
                    Option::Some(r) => r >= 1,
                };
                let t = match node {
                    FsNode::File { name, .. } => Self::new_dir(name.clone()),
                    FsNode::Dir { name, entries, .. } => {
                        proof {
                            lemma_fs_model_list(entries@, entries@.len() as int);
                        }
                        let mut t = Self::new_dir(name.clone());
                        if descend {
                            let kids = build_children(cli, entries, rem, Ghost(1));
                            t.children = Some(kids);
                        }
                        t
                    },
                };
                Ok(t)
            },
        }
    }
}

/// Builds the children, all sitting at `depth`, of a directory whose listed
/// entries are `entries`, keeping exactly the entries that pass the filters.
fn build_children(
    cli: &Cli,
    entries: &Vec<FsNode>,
    rem: Option<usize>,
    Ghost(depth): Ghost<int>,
) -> (out: Vec<TreeEntry>)
    requires
        rem_tracks(cli.depth, rem, depth),
        spec_descend(*cli, depth),
    ensures
        TreeEntry::model_list(out@, out@.len() as int) == spec_build_list(
            *cli,
            FsNode::model_list(entries@, entries@.len() as int),
            entries@.len() as int,
            depth,
        ),
        forall|k: int| 0 <= k < out@.len() ==> (#[trigger] out@[k]).wf(),
    decreases entries@, 1int,
{
    let ghost ems = FsNode::model_list(entries@, entries@.len() as int);
    proof {
        lemma_fs_model_list(entries@, entries@.len() as int);
    }
    let mut out: Vec<TreeEntry> = Vec::new();
    let n = entries.len();
    let mut j: usize = 0;
    proof {
        lemma_entry_model_list(out@, 0);
    }
    while j < n
        invariant
            n == entries@.len(),
            j <= n,
            rem_tracks(cli.depth, rem, depth),
            spec_descend(*cli, depth),
            ems == FsNode::model_list(entries@, entries@.len() as int),
            ems.len() == entries@.len(),
            forall|k: int| 0 <= k < entries@.len() ==> ems[k] == (#[trigger] entries@[k]).model(),
            TreeEntry::model_list(out@, out@.len() as int) == spec_build_list(
                *cli,
                ems,
                j as int,
                depth,
            ),
            forall|k: int| 0 <= k < out@.len() ==> (#[trigger] out@[k]).wf(),
        decreases n - j,
    {
        let e = &entries[j];
        if keep_entry(cli, e) {
            let child_rem = match rem {
                Option::None => Option::None,
                Option::Some(r) => Option::Some(r - 1),
            };
            let ghost old_out = out@;
            let child = build_node(cli, e, child_rem, Ghost(depth + 1));
            out.push(child);
            proof {
                lemma_entry_model_list(old_out, old_out.len() as int);
                lemma_entry_model_list(out@, out@.len() as int);
                assert(out@ == old_out.push(child));
                assert(spec_keep(*cli, ems[j as int]));
                let lhs = TreeEntry::model_list(out@, out@.len() as int);
                let rhs = spec_build_list(*cli, ems, j as int + 1, depth);
                let prev = spec_build_list(*cli, ems, j as int, depth);
                let node = spec_build_node(*cli, ems[j as int], depth + 1);
                assert(rhs == prev.push(node));
                assert(lhs.len() == rhs.len());
                assert forall|k: int| 0 <= k < lhs.len() implies lhs[k] == rhs[k] by {
                    assert(lhs[k] == out@[k].model());
                    assert(rhs[k] == prev.push(node)[k]);
                    if k < old_out.len() {
                        assert(out@[k] == old_out[k]);
                        assert(prev.push(node)[k] == prev[k]);
                        assert(prev[k] == TreeEntry::model_list(old_out, old_out.len() as int)[k]);
                        assert(TreeEntry::model_list(old_out, old_out.len() as int)[k]
                            == old_out[k].model());
                    } else {
                        assert(out@[k] == child);
                        assert(prev.push(node)[k] == node);
                    }
                }
                assert(lhs =~= rhs);
            }
        }
        j += 1;
    }
    out
}

/// Builds the tree node for one kept snapshot node `e`, whose children sit at
/// `depth`.
fn build_node(cli: &Cli, e: &FsNode, rem: Option<usize>, Ghost(depth): Ghost<int>) -> (t: TreeEntry)
    requires
        rem_tracks(cli.depth, rem, depth),
    ensures
        t.model() == spec_build_node(*cli, e.model(), depth),
        t.wf(),
    decreases *e, 0int,
{
    match e {
        FsNode::File { name, .. } => TreeEntry::new_file(name.clone()),
        FsNode::Dir { name, entries, .. } => {
            proof {
                assert(decreases_to!(*e => *entries));
                assert(decreases_to!(*entries => entries@));
                lemma_fs_model_list(entries@, entries@.len() as int);
            }
            let descend = match rem {
                Option::None => true,
                Option::Some(r) => r >= 1,
            };
            let mut t = TreeEntry::new_dir(name.clone());
            if descend {
                let kids = build_children(cli, entries, rem, Ghost(depth));
                t.children = Some(kids);
            }
            t
        },
    }
}

/// Applies the hidden, ignore and type filters to one snapshot entry.
fn keep_entry(cli: &Cli, e: &FsNode) -> (r: bool)
    ensures
        r == spec_keep(*cli, e.model()),
{
    let name: &String = match e {
        FsNode::File { name, .. } => name,
        FsNode::Dir { name, .. } => name,
    };
    if is_hidden(name.as_str()) && !(cli.hidden || cli.all) {
        return false;
    }
    let ignored = match e {
        FsNode::File { ignored, .. } => *ignored,
        FsNode::Dir { ignored, .. } => *ignored,
    };
    if ignored && !(cli.ignored || cli.all) {
        return false;
    }
    let is_dir = match e {
        FsNode::File { .. } => false,
        FsNode::Dir { .. } => true,
    };
    if cli.dirs_only && !is_dir {
        return false;
    }
    if cli.files_only && is_dir {
        return false;
    }
    true
}

/// No entry strictly below `t` has a hidden name (the root itself is exempt:
/// it is the path the user asked for).
pub open spec fn no_hidden_below(t: TreeModel) -> bool
    decreases t,
{
    match t {
        TreeModel::File { .. } => true,
        TreeModel::Dir { children, .. } => forall|i: int|
            0 <= i < children.len() ==> !spec_is_hidden((#[trigger] children[i]).name())
                && no_hidden_below(children[i]),
    }
}

/// Every entry strictly below `t` is a directory.
pub open spec fn dirs_only_below(t: TreeModel) -> bool
    decreases t,
{
    match t {
        TreeModel::File { .. } => true,
        TreeModel::Dir { children, .. } => forall|i: int|
            0 <= i < children.len() ==> (#[trigger] children[i]) is Dir && dirs_only_below(
                children[i],
            ),
    }
}

/// Every entry strictly below `t` is a file.
pub open spec fn files_only_below(t: TreeModel) -> bool {
    match t {
        TreeModel::File { .. } => true,
        TreeModel::Dir { children, .. } => forall|i: int|
            0 <= i < children.len() ==> (#[trigger] children[i]) is File,
    }
}

/// No populated node sits more than `n` levels below `t`: a directory with
/// any children needs `n >= 1`, and each child is bounded by `n - 1`.
pub open spec fn depth_bounded(t: TreeModel, n: int) -> bool
    decreases t,
{
    match t {
        TreeModel::File { .. } => true,
        TreeModel::Dir { children, .. } => (children.len() > 0 ==> n >= 1) && forall|i: int|
            0 <= i < children.len() ==> depth_bounded(#[trigger] children[i], n - 1),
    }
}

/// The builder never renames: a built node keeps its snapshot name.
pub proof fn lemma_build_node_name(cli: Cli, e: FsModel, depth: int)
    ensures
        spec_build_node(cli, e, depth).name() == e.name(),
{
}

/// With `hidden` and `all` both unset, nothing below any built node has a
/// hidden name.
pub proof fn lemma_hidden_filtered_node(cli: Cli, e: FsModel, depth: int)
    requires
        !cli.hidden,
        !cli.all,
    ensures
        no_hidden_below(spec_build_node(cli, e, depth)),
    decreases e, 0int,
{
    match e {
        FsModel::File { .. } => {},
        FsModel::Dir { name, ignored, entries } => {
            if spec_descend(cli, depth) {
                lemma_hidden_filtered_list(cli, entries, entries.len() as int, depth);
                let l = spec_build_list(cli, entries, entries.len() as int, depth);
                assert(spec_build_node(cli, e, depth) == (TreeModel::Dir { name, children: l }));
                assert forall|k: int|
                    0 <= k < l.len() implies !spec_is_hidden((#[trigger] l[k]).name())
                    && no_hidden_below(l[k]) by {}
            } else {
                assert(spec_build_node(cli, e, depth) == (TreeModel::Dir {
                    name,
                    children: Seq::<TreeModel>::empty(),
                }));
            }
        },
    }
}

proof fn lemma_hidden_filtered_list(cli: Cli, entries: Seq<FsModel>, i: int, depth: int)
    requires
        !cli.hidden,
        !cli.all,
        i <= entries.len(),
    ensures
        ({
            let l = spec_build_list(cli, entries, i, depth);
            forall|k: int|
                0 <= k < l.len() ==> !spec_is_hidden((#[trigger] l[k]).name()) && no_hidden_below(
                    l[k],
                )
        }),
    decreases entries, i,
{
    if 0 < i <= entries.len() {
        lemma_hidden_filtered_list(cli, entries, i - 1, depth);
        let prev = spec_build_list(cli, entries, i - 1, depth);
        let l = spec_build_list(cli, entries, i, depth);
        if spec_keep(cli, entries[i - 1]) {
            lemma_hidden_filtered_node(cli, entries[i - 1], depth + 1);
            lemma_build_node_name(cli, entries[i - 1], depth + 1);
            let node = spec_build_node(cli, entries[i - 1], depth + 1);
            assert forall|k: int|
                0 <= k < l.len() implies !spec_is_hidden((#[trigger] l[k]).name())
                && no_hidden_below(l[k]) by {
                if k < prev.len() {
                    assert(l[k] == prev[k]);
                } else {
                    assert(l[k] == node);
                }
            }
        }
    }
}

/// The law for the hidden filter: with `hidden` and `all` both unset, no
/// entry whose name starts with a dot appears anywhere in the built tree.
pub proof fn lemma_hidden_filtered(cli: Cli, root: FsModel)
    requires
        !cli.hidden,
        !cli.all,
    ensures
        no_hidden_below(spec_build(cli, root)),
{
    match root {
        FsModel::File { .. } => {},
        FsModel::Dir { name, ignored, entries } => {
            if spec_descend(cli, 1) {
                lemma_hidden_filtered_list(cli, entries, entries.len() as int, 1);
            }
        },
    }
}

/// The law for `all`: once `all` is set, the hidden and ignore filters impose
/// nothing; only the type filters decide whether an entry is kept.
pub proof fn lemma_all_overrides(cli: Cli, e: FsModel)
    requires
        cli.all,
    ensures
        spec_keep(cli, e) <==> ((cli.dirs_only ==> e.is_dir()) && (cli.files_only
            ==> !e.is_dir())),
{
}

/// With `all` set and no type filter, every snapshot entry appears in the
/// built children, under its own name and in listing order.
pub proof fn lemma_all_complete(cli: Cli, entries: Seq<FsModel>, i: int, depth: int)
    requires
        cli.all,
        !cli.dirs_only,
        !cli.files_only,
        0 <= i <= entries.len(),
    ensures
        spec_build_list(cli, entries, i, depth).len() == i,
        forall|k: int|
            0 <= k < i ==> spec_build_list(cli, entries, i, depth)[k].name() == (
            #[trigger] entries[k]).name(),
    decreases i,
{
    if i > 0 {
        lemma_all_complete(cli, entries, i - 1, depth);
        let prev = spec_build_list(cli, entries, i - 1, depth);
        let l = spec_build_list(cli, entries, i, depth);
        lemma_build_node_name(cli, entries[i - 1], depth + 1);
        assert forall|k: int| 0 <= k < i implies l[k].name() == (#[trigger] entries[k]).name() by {
            if k < i - 1 {
                assert(l[k] == prev[k]);
            }
        }
    }
}

/// The built tree is a faithful copy of the snapshot: same names, same
/// kinds, same nesting, nothing dropped.
pub open spec fn mirrors(t: TreeModel, e: FsModel) -> bool
    decreases e,
{
    match e {
        FsModel::File { name, .. } => t == (TreeModel::File { name }),
        FsModel::Dir { name, entries, .. } => t matches TreeModel::Dir {
            name: tn,
            children,
        } && tn == name && children.len() == entries.len() && forall|k: int|
            0 <= k < entries.len() ==> mirrors(children[k], #[trigger] entries[k]),
    }
}

/// With nothing filtered out — hidden and ignored entries admitted, no type
/// filter, no depth bound — every built node copies its snapshot node whole.
pub proof fn lemma_unfiltered_mirrors_node(cli: Cli, e: FsModel, depth: int)
    requires
        cli.hidden || cli.all,
        cli.ignored || cli.all,
        !cli.dirs_only,
        !cli.files_only,
        cli.depth is None,
    ensures
        mirrors(spec_build_node(cli, e, depth), e),
    decreases e, 0int,
{
    match e {
        FsModel::File { .. } => {},
        FsModel::Dir { name, ignored, entries } => {
            lemma_unfiltered_mirrors_list(cli, entries, entries.len() as int, depth);
            let l = spec_build_list(cli, entries, entries.len() as int, depth);
            assert(spec_build_node(cli, e, depth) == (TreeModel::Dir { name, children: l }));
            assert forall|k: int| 0 <= k < entries.len() implies mirrors(
                l[k],
                #[trigger] entries[k],
            ) by {}
        },
    }
}

proof fn lemma_unfiltered_mirrors_list(cli: Cli, entries: Seq<FsModel>, i: int, depth: int)
    requires
        cli.hidden || cli.all,
        cli.ignored || cli.all,
        !cli.dirs_only,
        !cli.files_only,
        cli.depth is None,
        0 <= i <= entries.len(),
    ensures
        spec_build_list(cli, entries, i, depth).len() == i,
        forall|k: int|
            0 <= k < i ==> mirrors(spec_build_list(cli, entries, i, depth)[k], (
            #[trigger] entries[k])),
    decreases entries, i,
{
    if i > 0 {
        lemma_unfiltered_mirrors_list(cli, entries, i - 1, depth);
        let prev = spec_build_list(cli, entries, i - 1, depth);
        let l = spec_build_list(cli, entries, i, depth);
        lemma_unfiltered_mirrors_node(cli, entries[i - 1], depth + 1);
        assert forall|k: int| 0 <= k < i implies mirrors(l[k], (#[trigger] entries[k])) by {
            if k < i - 1 {
                assert(l[k] == prev[k]);
            } else {
                assert(l[k] == spec_build_node(cli, entries[i - 1], depth + 1));
            }
        }
    }
}

/// The law for `all` on a whole walk: with `all` set and no type filter, the
/// built tree of a directory snapshot is the snapshot whole — hidden and
/// ignored entries included, at every level.
pub proof fn lemma_all_mirrors(cli: Cli, root: FsModel)
    requires
        cli.all,
        !cli.dirs_only,
        !cli.files_only,
        cli.depth is None,
        root is Dir,
    ensures
        mirrors(spec_build(cli, root), root),
{
    match root {
        FsModel::File { .. } => {},
        FsModel::Dir { name, ignored, entries } => {
            lemma_unfiltered_mirrors_list(cli, entries, entries.len() as int, 1);
            let l = spec_build_list(cli, entries, entries.len() as int, 1);
            assert(spec_build(cli, root) == (TreeModel::Dir { name, children: l }));
            assert forall|k: int| 0 <= k < entries.len() implies mirrors(
                l[k],
                #[trigger] entries[k],
            ) by {}
        },
    }
}

/// With `dirs_only` set, every entry below any built node is a directory.
pub proof fn lemma_dirs_only_node(cli: Cli, e: FsModel, depth: int)
    requires
        cli.dirs_only,
    ensures
        dirs_only_below(spec_build_node(cli, e, depth)),
    decreases e, 0int,
{
    match e {
        FsModel::File { .. } => {},
        FsModel::Dir { name, ignored, entries } => {
            if spec_descend(cli, depth) {
                lemma_dirs_only_list(cli, entries, entries.len() as int, depth);
            }
        },
    }
}

proof fn lemma_dirs_only_list(cli: Cli, entries: Seq<FsModel>, i: int, depth: int)
    requires
        cli.dirs_only,
        i <= entries.len(),
    ensures
        ({
            let l = spec_build_list(cli, entries, i, depth);
            forall|k: int|
                0 <= k < l.len() ==> (#[trigger] l[k]) is Dir && dirs_only_below(l[k])
        }),
    decreases entries, i,
{
    if 0 < i <= entries.len() {
        lemma_dirs_only_list(cli, entries, i - 1, depth);
        let prev = spec_build_list(cli, entries, i - 1, depth);
        let l = spec_build_list(cli, entries, i, depth);
        if spec_keep(cli, entries[i - 1]) {
            lemma_dirs_only_node(cli, entries[i - 1], depth + 1);
            let node = spec_build_node(cli, entries[i - 1], depth + 1);
            assert forall|k: int|
                0 <= k < l.len() implies (#[trigger] l[k]) is Dir && dirs_only_below(l[k]) by {
                if k < prev.len() {
                    assert(l[k] == prev[k]);
                } else {
                    assert(l[k] == node);
                }
            }
        }
    }
}

/// The law for `dirs_only`: files are removed at every level of the built
/// tree, not just the first.
pub proof fn lemma_dirs_only(cli: Cli, root: FsModel)
    requires
        cli.dirs_only,
    ensures
        dirs_only_below(spec_build(cli, root)),
{
    match root {
        FsModel::File { .. } => {},
        FsModel::Dir { name, ignored, entries } => {
            if spec_descend(cli, 1) {
                lemma_dirs_only_list(cli, entries, entries.len() as int, 1);
            }
        },
    }
}

/// With `files_only` set, every entry below any built node is a file.
pub proof fn lemma_files_only_node(cli: Cli, e: FsModel, depth: int)
    requires
        cli.files_only,
    ensures
        files_only_below(spec_build_node(cli, e, depth)),
{
    match e {
        FsModel::File { .. } => {},
        FsModel::Dir { name, ignored, entries } => {
            if spec_descend(cli, depth) {
                lemma_files_only_list(cli, entries, entries.len() as int, depth);
            }
        },
    }
}

proof fn lemma_files_only_list(cli: Cli, entries: Seq<FsModel>, i: int, depth: int)
    requires
        cli.files_only,
        i <= entries.len(),
    ensures
        ({
            let l = spec_build_list(cli, entries, i, depth);
            forall|k: int| 0 <= k < l.len() ==> (#[trigger] l[k]) is File
        }),
    decreases i,
{
    if 0 < i <= entries.len() {
        lemma_files_only_list(cli, entries, i - 1, depth);
        let prev = spec_build_list(cli, entries, i - 1, depth);
        let l = spec_build_list(cli, entries, i, depth);
        if spec_keep(cli, entries[i - 1]) {
            let node = spec_build_node(cli, entries[i - 1], depth + 1);
            assert forall|k: int| 0 <= k < l.len() implies (#[trigger] l[k]) is File by {
                if k < prev.len() {
                    assert(l[k] == prev[k]);
                } else {
                    assert(l[k] == node);
                }
            }
        }
    }
}

/// The law for `files_only`: directories are removed at every level of the
/// built tree, so what remains is flat.
pub proof fn lemma_files_only(cli: Cli, root: FsModel)
    requires
        cli.files_only,
    ensures
        files_only_below(spec_build(cli, root)),
{
    match root {
        FsModel::File { .. } => {},
        FsModel::Dir { name, ignored, entries } => {
            if spec_descend(cli, 1) {
                lemma_files_only_list(cli, entries, entries.len() as int, 1);
            }
        },
    }
}

/// With a depth bound of `d`, no built node sits more than `d - depth + 1`
/// levels below a node whose children sit at `depth`.
pub proof fn lemma_depth_bounded_node(cli: Cli, e: FsModel, depth: int, d: int)
    requires
        cli.depth matches Some(dd) && dd == d,
        1 <= depth <= d + 1,
    ensures
        depth_bounded(spec_build_node(cli, e, depth), d - depth + 1),
    decreases e, 0int,
{
    match e {
        FsModel::File { .. } => {},
        FsModel::Dir { name, ignored, entries } => {
            if spec_descend(cli, depth) {
                lemma_depth_bounded_list(cli, entries, entries.len() as int, depth, d);
                let l = spec_build_list(cli, entries, entries.len() as int, depth);
                assert(spec_build_node(cli, e, depth) == (TreeModel::Dir { name, children: l }));
                assert forall|k: int|
                    0 <= k < l.len() implies depth_bounded(#[trigger] l[k], d - depth) by {}
            } else {
                assert(spec_build_node(cli, e, depth) == (TreeModel::Dir {
                    name,
                    children: Seq::<TreeModel>::empty(),
                }));
            }
        },
    }
}

proof fn lemma_depth_bounded_list(cli: Cli, entries: Seq<FsModel>, i: int, depth: int, d: int)
    requires
        cli.depth matches Some(dd) && dd == d,
        1 <= depth <= d,
        i <= entries.len(),
    ensures
        ({
            let l = spec_build_list(cli, entries, i, depth);
            forall|k: int| 0 <= k < l.len() ==> depth_bounded(#[trigger] l[k], d - depth)
        }),
    decreases entries, i,
{
    if 0 < i <= entries.len() {
        lemma_depth_bounded_list(cli, entries, i - 1, depth, d);
        let prev = spec_build_list(cli, entries, i - 1, depth);
        let l = spec_build_list(cli, entries, i, depth);
        if spec_keep(cli, entries[i - 1]) {
            lemma_depth_bounded_node(cli, entries[i - 1], depth + 1, d);
            let node = spec_build_node(cli, entries[i - 1], depth + 1);
            assert forall|k: int| 0 <= k < l.len() implies depth_bounded(#[trigger] l[k], d
                - depth) by {
                if k < prev.len() {
                    assert(l[k] == prev[k]);
                } else {
                    assert(l[k] == node);
                }
            }
        }
    }
}

/// The law for the depth bound: with `depth = d`, no node of the built tree
/// sits more than `d` levels below the root, and nodes at the bound keep no
/// children.
pub proof fn lemma_depth_bounded(cli: Cli, root: FsModel, d: usize)
    requires
        cli.depth == Some(d),
    ensures
        depth_bounded(spec_build(cli, root), d as int),
{
    match root {
        FsModel::File { .. } => {},
        FsModel::Dir { name, ignored, entries } => {
            if spec_descend(cli, 1) {
                lemma_depth_bounded_list(cli, entries, entries.len() as int, 1, d as int);
            }
        },
    }
}

} // verus!
