//! The tree renderer: one line for each visible descendant of a directory,
//! drawn with connectors that show where each level goes on.

use crate::config::DEFAULT_DIRECTORY;
use crate::entry::{hidden_name, is_hidden_name};
use crate::order::{
    arranged, lemma_arranged_unique, lemma_sort_order_sorted, paths_of, sort_order, sorted_indices,
    Located,
};
use crate::text::{name_text, texts, NEWLINE};
use vstd::prelude::*;
use vstd::string::*;

verus! {

/// The column of an ancestor that has more children to come.
pub const BAR: &'static str = "\u{2502}   ";

/// The column of an ancestor that is done.
pub const BLANK: &'static str = "    ";

/// The connector of an entry that has siblings after it.
pub const CONNECTOR: &'static str = "\u{251c}\u{2500}\u{2500} ";

/// The connector of the last entry of its directory.
pub const LAST_CONNECTOR: &'static str = "\u{2514}\u{2500}\u{2500} ";

/// A limit for the depth of a tree that no tree on a real system reaches.
pub const DEFAULT_MAX_DEPTH: usize = 4096;

/// Why a tree is not drawn.
#[derive(Clone, Copy, Debug, PartialEq, Eq, Structural)]
pub enum TreeError {
    /// The tree goes deeper than the limit.
    TooDeep,
}

/// One entry of a directory tree, with the entries below it where it is a
/// directory that has been read.
#[derive(Debug)]
pub struct TreeNode {
    /// The bytes of the path, by which the children of a directory are
    /// ordered.
    pub path: Vec<u8>,
    /// The path without the prefix of the directory that holds the entry,
    /// if it has a text form.
    pub name: Option<String>,
    /// Whether the entry is a directory.
    pub is_dir: bool,
    /// The entries of the directory.
    pub children: Vec<TreeNode>,
}

/// The mathematical content of a `TreeNode`.
pub ghost struct TreeView {
    pub path: Seq<u8>,
    pub name: Option<Seq<char>>,
    pub is_dir: bool,
    pub children: Seq<TreeView>,
}

/// The views of the first `n` of `children`.
pub open spec fn child_views(children: Seq<TreeNode>, n: nat) -> Seq<TreeView>
    decreases children, n,
{
    if n == 0 || n > children.len() {
        Seq::empty()
    } else {
        child_views(children, (n - 1) as nat).push(tree_view(children[n - 1]))
    }
}

/// The view of a node: its own fields, and the views of its children.
pub open spec fn tree_view(node: TreeNode) -> TreeView
    decreases node,
{
    TreeView {
        path: node.path@,
        name: name_text(node.name),
        is_dir: node.is_dir,
        children: child_views(node.children@, node.children@.len()),
    }
}

impl View for TreeNode {
    type V = TreeView;

    open spec fn view(&self) -> TreeView {
        tree_view(*self)
    }
}

proof fn lemma_child_views(children: Seq<TreeNode>, n: nat)
    requires
        n <= children.len(),
    ensures
        child_views(children, n).len() == n,
        forall|i: int| 0 <= i < n ==> child_views(children, n)[i] == children[i]@,
    decreases n,
{
    if n > 0 {
        lemma_child_views(children, (n - 1) as nat);
    }
}

/// The view of a node holds the views of its children, one for one.
pub proof fn lemma_tree_view(node: TreeNode)
    ensures
        node@.path == node.path@,
        node@.name == name_text(node.name),
        node@.is_dir == node.is_dir,
        node@.children.len() == node.children@.len(),
        forall|i: int| 0 <= i < node.children@.len() ==> node@.children[i] == node.children@[i]@,
        tree_paths(node@.children) == paths_of(node.children@),
{
    lemma_child_views(node.children@, node.children@.len());
    assert forall|i: int| 0 <= i < node.children@.len() implies tree_paths(node@.children)[i]
        == paths_of(node.children@)[i] by {
        assert(node@.children[i] == tree_view(node.children@[i]));
    }
    assert(tree_paths(node@.children) =~= paths_of(node.children@));
}

impl Located for TreeNode {
    open spec fn path_view(&self) -> Seq<u8> {
        self.path@
    }

    fn path_bytes(&self) -> (p: &[u8]) {
        self.path.as_slice()
    }
}

/// The paths of the entries of a directory.
pub open spec fn tree_paths(children: Seq<TreeView>) -> Seq<Seq<u8>> {
    children.map_values(|child: TreeView| child.path)
}

/// One line of a tree.
pub ghost struct TreeLine {
    /// For each level above the entry, whether a bar is drawn in its column.
    pub bars: Seq<bool>,
    /// Whether the entry is the last of its directory.
    pub last: bool,
    /// The name of the entry.
    pub name: Seq<char>,
}

/// The columns in front of an entry at `depth`: a bar at each level that is
/// in `lines_at`.
pub open spec fn bars_at(depth: nat, lines_at: Seq<usize>) -> Seq<bool> {
    Seq::new(depth, |level: int| lines_at.contains(level as usize))
}

/// The text of one column.
pub open spec fn bar_text(bar: bool) -> Seq<char> {
    if bar {
        BAR@
    } else {
        BLANK@
    }
}

/// The text of the columns in front of an entry.
pub open spec fn bars_text(bars: Seq<bool>) -> Seq<char> {
    bars.map_values(|bar: bool| bar_text(bar)).flatten()
}

/// The connector in front of a name.
pub open spec fn connector(last: bool) -> Seq<char> {
    if last {
        LAST_CONNECTOR@
    } else {
        CONNECTOR@
    }
}

/// A line as text: the columns, the connector, the name and a newline.
pub open spec fn line_text(line: TreeLine) -> Seq<char> {
    bars_text(line.bars) + connector(line.last) + line.name + NEWLINE@
}

/// Lines as text.
pub open spec fn lines_text(lines: Seq<TreeLine>) -> Seq<char> {
    lines.map_values(|line: TreeLine| line_text(line)).flatten()
}

/// The name under which an entry is printed: it must have one, and the
/// name must not begin with a dot.
pub open spec fn printed_name(name: Option<Seq<char>>) -> Option<Seq<char>> {
    match name {
        Some(n) => if hidden_name(n) {
            None
        } else {
            Some(n)
        },
        None => None,
    }
}

/// The line of one entry, or no line where the entry is not printed.
pub open spec fn item_line(
    name: Option<Seq<char>>,
    depth: nat,
    lines_at: Seq<usize>,
    last: bool,
) -> Seq<TreeLine> {
    match printed_name(name) {
        Some(n) => seq![TreeLine { bars: bars_at(depth, lines_at), last: last, name: n }],
        None => Seq::empty(),
    }
}

/// Whether the renderer goes into an entry: a directory that is printed.
pub open spec fn descends(node: TreeView) -> bool {
    node.is_dir && printed_name(node.name) is Some
}

/// The levels at which a bar is drawn below an entry at `depth`: those
/// above it, and its own unless it is the last of its directory.
pub open spec fn lines_below(depth: nat, lines_at: Seq<usize>, last: bool) -> Seq<usize> {
    if last {
        lines_at
    } else {
        lines_at.push(depth as usize)
    }
}

/// The lines of the children of `dir`, taken in `order`, up to the `k`-th:
/// for each its own line, then the lines of what lies below it.
pub open spec fn child_lines(
    dir: TreeView,
    order: Seq<int>,
    depth: nat,
    lines_at: Seq<usize>,
    k: nat,
) -> Seq<TreeLine>
    decreases dir, k,
{
    if k == 0 {
        Seq::empty()
    } else {
        let before = child_lines(dir, order, depth, lines_at, (k - 1) as nat);
        let index = order[k - 1];
        if k <= order.len() && 0 <= index < dir.children.len() {
            let child = dir.children[index];
            let last = k == order.len();
            before + item_line(child.name, depth, lines_at, last) + (if descends(child) {
                dir_lines(child, depth + 1, lines_below(depth, lines_at, last))
            } else {
                Seq::empty()
            })
        } else {
            before
        }
    }
}

/// The lines of everything below `dir`, whose children stand at `depth`:
/// the children in the order of their paths, each followed by what lies
/// below it.
pub open spec fn dir_lines(dir: TreeView, depth: nat, lines_at: Seq<usize>) -> Seq<TreeLine>
    decreases dir, dir.children.len() + 1,
{
    child_lines(dir, sort_order(tree_paths(dir.children)), depth, lines_at, dir.children.len())
}

impl TreeView {
    /// Whether the tree below this directory, whose children stand at
    /// `depth`, stays within `limit`: no entry at `limit` or deeper is gone
    /// into.
    pub open spec fn within(self, depth: nat, limit: nat) -> bool
        decreases self,
    {
        forall|i: int|
            0 <= i < self.children.len() ==> {
                let child = #[trigger] self.children[i];
                descends(child) ==> depth < limit && child.within(depth + 1, limit)
            }
    }

    /// Whether the tree below this directory, whose children stand at
    /// `depth`, can be rendered: the depth of every level that is gone into
    /// fits the machine's integers.
    pub open spec fn renderable(self, depth: nat) -> bool {
        self.within(depth, usize::MAX as nat)
    }
}

/// The text of lines followed by more lines.
pub proof fn lemma_lines_text_concat(a: Seq<TreeLine>, b: Seq<TreeLine>)
    ensures
        lines_text(a + b) == lines_text(a) + lines_text(b),
{
    let f = |line: TreeLine| line_text(line);
    assert((a + b).map_values(f) =~= a.map_values(f) + b.map_values(f));
    vstd::seq_lib::lemma_flatten_concat(a.map_values(f), b.map_values(f));
}

/// The text of the line of one entry.
pub proof fn lemma_item_line_text(
    name: Option<Seq<char>>,
    depth: nat,
    lines_at: Seq<usize>,
    last: bool,
)
    ensures
        lines_text(item_line(name, depth, lines_at, last)) == match printed_name(name) {
            Some(n) => bars_text(bars_at(depth, lines_at)) + connector(last) + n + NEWLINE@,
            None => Seq::<char>::empty(),
        },
{
    let f = |line: TreeLine| line_text(line);
    let lines = item_line(name, depth, lines_at, last);
    match printed_name(name) {
        Some(n) => {
            assert(lines.map_values(f) =~= seq![line_text(lines[0])]);
            seq![line_text(lines[0])].lemma_flatten_one_element();
        },
        None => {
            assert(lines.map_values(f) =~= Seq::<Seq<char>>::empty());
        },
    }
}

/// Whether `level` is among `lines_at`.
pub fn has_line_at(lines_at: &Vec<usize>, level: usize) -> (found: bool)
    ensures
        found == lines_at@.contains(level),
{
    let mut i: usize = 0;
    while i < lines_at.len()
        invariant
            0 <= i <= lines_at@.len(),
            forall|j: int| 0 <= j < i ==> lines_at@[j] != level,
        decreases lines_at@.len() - i,
    {
        if lines_at[i] == level {
            return true;
        }
        i += 1;
    }
    false
}

/// The line of one entry: for each level above it a bar or a blank, the
/// connector, the name and a newline. An entry without a name, or with one
/// that begins with a dot, has no line.
pub fn print_item(name: &Option<String>, depth: usize, lines_at: &Vec<usize>, last: bool) -> (out:
    String)
    ensures
        out@ == lines_text(item_line(name_text(*name), depth as nat, lines_at@, last)),
{
    let mut out = String::new();
    proof {
        lemma_item_line_text(name_text(*name), depth as nat, lines_at@, last);
    }
    match name {
        Some(s) => {
            if is_hidden_name(s.as_str()) {
                return out;
            }
            let ghost bars = bars_at(depth as nat, lines_at@);
            let ghost f = |bar: bool| bar_text(bar);
            let mut level: usize = 0;
            proof {
                assert(bars.take(0).map_values(f) =~= Seq::<Seq<char>>::empty());
            }
            while level < depth
                invariant
                    0 <= level <= depth,
                    bars == bars_at(depth as nat, lines_at@),
                    f == |bar: bool| bar_text(bar),
                    out@ == bars.take(level as int).map_values(f).flatten(),
                decreases depth - level,
            {
                proof {
                    let sofar = bars.take(level as int).map_values(f);
                    assert(bars.take(level + 1).map_values(f) =~= sofar.push(
                        bar_text(bars[level as int]),
                    ));
                    sofar.lemma_flatten_push(bar_text(bars[level as int]));
                }
                if has_line_at(lines_at, level) {
                    out.append(BAR);
                } else {
                    out.append(BLANK);
                }
                level += 1;
            }
            proof {
                assert(bars.take(depth as int) =~= bars);
            }
            if last {
                out.append(LAST_CONNECTOR);
            } else {
                out.append(CONNECTOR);
            }
            out.append(s.as_str());
            out.append(NEWLINE);
            out
        },
        None => out,
    }
}

/// Whether the renderer goes into `node`: a directory with a name that
/// does not begin with a dot.
pub fn goes_into(node: &TreeNode) -> (into: bool)
    ensures
        into == descends(node@),
{
    if node.is_dir {
        match &node.name {
            Some(name) => !is_hidden_name(name.as_str()),
            None => false,
        }
    } else {
        false
    }
}

/// Whether the tree below `dir`, whose children stand at `depth`, stays
/// within `limit`.
pub fn is_within(dir: &TreeNode, depth: usize, limit: usize) -> (ok: bool)
    ensures
        ok == dir@.within(depth as nat, limit as nat),
    decreases dir,
{
    proof {
        lemma_tree_view(*dir);
    }
    let mut i: usize = 0;
    while i < dir.children.len()
        invariant
            0 <= i <= dir.children@.len(),
            dir@.children.len() == dir.children@.len(),
            forall|j: int| 0 <= j < dir.children@.len() ==> dir@.children[j] == dir.children@[j]@,
            forall|j: int|
                0 <= j < i ==> {
                    let child = #[trigger] dir@.children[j];
                    descends(child) ==> depth < limit && child.within(
                        (depth + 1) as nat,
                        limit as nat,
                    )
                },
        decreases dir.children@.len() - i,
    {
        let child = &dir.children[i];
        assert(dir@.children[i as int] == child@);
        if goes_into(child) {
            if depth >= limit {
                return false;
            }
            if !is_within(child, depth + 1, limit) {
                return false;
            }
        }
        i += 1;
    }
    true
}

/// A tree that stays within a limit stays within every wider one.
pub proof fn lemma_within_wider(dir: TreeView, depth: nat, limit: nat, wider: nat)
    requires
        dir.within(depth, limit),
        limit <= wider,
    ensures
        dir.within(depth, wider),
    decreases dir,
{
    assert forall|i: int| 0 <= i < dir.children.len() implies {
        let child = #[trigger] dir.children[i];
        descends(child) ==> depth < wider && child.within(depth + 1, wider)
    } by {
        let child = dir.children[i];
        if descends(child) {
            lemma_within_wider(child, depth + 1, limit, wider);
        }
    }
}

/// The lines of everything below `dir`, whose children stand at `depth`.
/// The children are taken in the order of their paths. Only the last of
/// them gets the closing connector; while what lies below another one is
/// rendered, `depth` is among `lines_at`, and afterwards `lines_at` is what
/// it was.
pub fn process_dir(dir: &TreeNode, depth: usize, lines_at: &mut Vec<usize>) -> (out: String)
    requires
        dir@.renderable(depth as nat),
    ensures
        out@ == lines_text(dir_lines(dir@, depth as nat, old(lines_at)@)),
        final(lines_at)@ == old(lines_at)@,
    decreases dir,
{
    let ghost order = sort_order(tree_paths(dir@.children));
    let ghost levels = lines_at@;
    let indices = sorted_indices(&dir.children);
    let mut out = String::new();
    let count = indices.len();
    proof {
        lemma_tree_view(*dir);
        assert(lines_text(Seq::<TreeLine>::empty()) =~= Seq::<char>::empty());
    }
    if count == 0 {
        return out;
    }
    let end = count - 1;
    let mut i: usize = 0;
    while i < count
        invariant
            dir@.renderable(depth as nat),
            order == sort_order(tree_paths(dir@.children)),
            indices@.map_values(|i: usize| i as int) == order,
            forall|k: int| 0 <= k < indices@.len() ==> #[trigger] indices@[k] < dir.children@.len(),
            dir@.children.len() == dir.children@.len(),
            forall|j: int| 0 <= j < dir.children@.len() ==> dir@.children[j] == dir.children@[j]@,
            count == indices@.len(),
            count == dir.children@.len(),
            end == count - 1,
            0 <= i <= count,
            lines_at@ == levels,
            out@ == lines_text(child_lines(dir@, order, depth as nat, levels, i as nat)),
        decreases count - i,
    {
        let is_last = i == end;
        let child = &dir.children[indices[i]];
        let ghost before = child_lines(dir@, order, depth as nat, levels, i as nat);
        let ghost own = item_line(child@.name, depth as nat, levels, is_last);
        let ghost below = if descends(child@) {
            dir_lines(child@, depth as nat + 1, lines_below(depth as nat, levels, is_last))
        } else {
            Seq::<TreeLine>::empty()
        };
        proof {
            assert(indices@.map_values(|i: usize| i as int)[i as int] == indices@[i as int]);
            assert(dir@.children[indices@[i as int] as int] == child@);
            assert(child_lines(dir@, order, depth as nat, levels, (i + 1) as nat) == before + own
                + below);
            lemma_lines_text_concat(before + own, below);
            lemma_lines_text_concat(before, own);
            lemma_tree_view(*child);
        }
        let line = print_item(&child.name, depth, lines_at, is_last);
        out.append(line.as_str());
        if !is_last {
            lines_at.push(depth);
        }
        if goes_into(child) {
            let sub = process_dir(child, depth + 1, lines_at);
            out.append(sub.as_str());
        }
        if !is_last {
            lines_at.pop();
        }
        proof {
            assert(lines_at@ =~= levels);
            assert(out@ =~= lines_text(before) + lines_text(own) + lines_text(below));
        }
        i += 1;
    }
    out
}

/// The directory that the tree tool is asked for: the first argument, or
/// the current directory where there is none.
pub open spec fn root_of(args: Seq<Seq<char>>) -> Seq<char> {
    if args.len() == 0 {
        DEFAULT_DIRECTORY@
    } else {
        args[0]
    }
}

/// The directory to draw.
pub fn tree_directory(args: &Vec<String>) -> (dir: String)
    ensures
        dir@ == root_of(texts(args@)),
{
    if args.len() == 0 {
        String::from_str(DEFAULT_DIRECTORY)
    } else {
        args[0].clone()
    }
}

/// The text of a tree: the root as it was named, alone on the first line,
/// then the lines of everything below it.
pub open spec fn tree_text(root_name: Seq<char>, root: TreeView) -> Seq<char> {
    root_name + NEWLINE@ + lines_text(dir_lines(root, 0, Seq::empty()))
}

/// Draws the tree below `root` under a first line that holds `root_name`,
/// unless the tree goes deeper than `max_depth`. An entry without a name in
/// text form has no line and is not gone into; the entries beside it are
/// drawn as ever.
pub fn draw_tree(root_name: &str, root: &TreeNode, max_depth: usize) -> (drawn: Result<
    String,
    TreeError,
>)
    ensures
        match drawn {
            Ok(text) => root@.within(0, max_depth as nat) && text@ == tree_text(
                root_name@,
                root@,
            ),
            Err(TreeError::TooDeep) => !root@.within(0, max_depth as nat),
        },
{
    if !is_within(root, 0, max_depth) {
        return Err(TreeError::TooDeep);
    }
    proof {
        lemma_within_wider(root@, 0, max_depth as nat, usize::MAX as nat);
    }
    Ok(render_tree(root_name, root))
}

/// Renders the tree below `root`, under a first line that holds
/// `root_name`.
pub fn render_tree(root_name: &str, root: &TreeNode) -> (out: String)
    requires
        root@.renderable(0),
    ensures
        out@ == tree_text(root_name@, root@),
{
    let mut out = String::from_str(root_name);
    out.append(NEWLINE);
    let mut lines_at: Vec<usize> = Vec::new();
    let lines = process_dir(root, 0, &mut lines_at);
    out.append(lines.as_str());
    out
}

/// The `k`-th child of `dir` in the order of the paths.
pub open spec fn nth_child(dir: TreeView, k: int) -> TreeView {
    arranged(dir.children, tree_paths(dir.children))[k]
}

/// Whether the `k`-th child is the last one.
pub open spec fn is_last_child(dir: TreeView, k: int) -> bool {
    k == dir.children.len() - 1
}

/// The own line of the `k`-th child of `dir`, where it has one.
pub open spec fn line_of_child(dir: TreeView, depth: nat, lines_at: Seq<usize>, k: int) -> Seq<
    TreeLine,
> {
    item_line(nth_child(dir, k).name, depth, lines_at, is_last_child(dir, k))
}

/// The lines of what lies below the `k`-th child of `dir`.
pub open spec fn lines_under_child(dir: TreeView, depth: nat, lines_at: Seq<usize>, k: int) -> Seq<
    TreeLine,
> {
    if descends(nth_child(dir, k)) {
        dir_lines(
            nth_child(dir, k),
            depth + 1,
            lines_below(depth, lines_at, is_last_child(dir, k)),
        )
    } else {
        Seq::empty()
    }
}

/// The lines of the first `k` children of `dir` with what lies below them.
pub open spec fn lines_of_children(dir: TreeView, depth: nat, lines_at: Seq<usize>, k: nat) -> Seq<
    TreeLine,
> {
    child_lines(dir, sort_order(tree_paths(dir.children)), depth, lines_at, k)
}

/// The lines of a directory are, for each child in the order of the paths,
/// the line of the child and then the lines of what lies below it.
pub proof fn lemma_lines_child_by_child(dir: TreeView, depth: nat, lines_at: Seq<usize>, k: int)
    requires
        0 <= k < dir.children.len(),
    ensures
        dir_lines(dir, depth, lines_at) == lines_of_children(
            dir,
            depth,
            lines_at,
            dir.children.len(),
        ),
        lines_of_children(dir, depth, lines_at, 0) == Seq::<TreeLine>::empty(),
        lines_of_children(dir, depth, lines_at, (k + 1) as nat) == lines_of_children(
            dir,
            depth,
            lines_at,
            k as nat,
        ) + line_of_child(dir, depth, lines_at, k) + lines_under_child(dir, depth, lines_at, k),
{
    let paths = tree_paths(dir.children);
    lemma_sort_order_sorted(paths);
    assert(0 <= sort_order(paths)[k] < dir.children.len());
}

/// The columns of the levels above `depth` are drawn as `lines_at` says.
pub open spec fn keeps_columns(line: TreeLine, depth: nat, lines_at: Seq<usize>) -> bool {
    &&& line.bars.len() >= depth
    &&& forall|level: int|
        0 <= level < depth ==> line.bars[level] == lines_at.contains(level as usize)
}

/// A level is among the levels with one more pushed if it was among them
/// before or is the one pushed.
proof fn lemma_contains_push(levels: Seq<usize>, pushed: usize, level: usize)
    ensures
        levels.push(pushed).contains(level) == (levels.contains(level) || level == pushed),
{
    let longer = levels.push(pushed);
    if levels.contains(level) {
        let i = choose|i: int| 0 <= i < levels.len() && levels[i] == level;
        assert(longer[i] == level);
    }
    if level == pushed {
        assert(longer[levels.len() as int] == level);
    }
}

proof fn lemma_child_lines_keep_columns(
    dir: TreeView,
    order: Seq<int>,
    depth: nat,
    lines_at: Seq<usize>,
    k: nat,
)
    requires
        dir.renderable(depth),
        depth <= usize::MAX,
    ensures
        forall|i: int|
            0 <= i < child_lines(dir, order, depth, lines_at, k).len() ==> keeps_columns(
                #[trigger] child_lines(dir, order, depth, lines_at, k)[i],
                depth,
                lines_at,
            ),
    decreases dir, k,
{
    if k > 0 {
        lemma_child_lines_keep_columns(dir, order, depth, lines_at, (k - 1) as nat);
        let before = child_lines(dir, order, depth, lines_at, (k - 1) as nat);
        let all = child_lines(dir, order, depth, lines_at, k);
        let index = order[k - 1];
        if k <= order.len() && 0 <= index < dir.children.len() {
            let child = dir.children[index];
            let last = k == order.len();
            let own = item_line(child.name, depth, lines_at, last);
            let below = lines_below(depth, lines_at, last);
            let under = if descends(child) {
                dir_lines(child, depth + 1, below)
            } else {
                Seq::<TreeLine>::empty()
            };
            assert(all == before + own + under);
            if descends(child) {
                lemma_dir_lines_keep_columns(child, depth + 1, below);
            }
            assert forall|i: int| 0 <= i < all.len() implies keeps_columns(
                #[trigger] all[i],
                depth,
                lines_at,
            ) by {
                if i < before.len() {
                    assert(all[i] == before[i]);
                } else if i < before.len() + own.len() {
                    assert(all[i] == own[i - before.len()]);
                } else {
                    let line = under[i - before.len() - own.len()];
                    assert(all[i] == line);
                    assert(keeps_columns(line, depth + 1, below));
                    assert forall|level: int| 0 <= level < depth implies line.bars[level]
                        == lines_at.contains(level as usize) by {
                        lemma_contains_push(lines_at, depth as usize, level as usize);
                    }
                }
            }
        } else {
            assert(all == before);
        }
    }
}

proof fn lemma_dir_lines_keep_columns(dir: TreeView, depth: nat, lines_at: Seq<usize>)
    requires
        dir.renderable(depth),
        depth <= usize::MAX,
    ensures
        forall|i: int|
            0 <= i < dir_lines(dir, depth, lines_at).len() ==> keeps_columns(
                #[trigger] dir_lines(dir, depth, lines_at)[i],
                depth,
                lines_at,
            ),
    decreases dir, dir.children.len() + 1,
{
    let order = sort_order(tree_paths(dir.children));
    let all = child_lines(dir, order, depth, lines_at, dir.children.len());
    lemma_child_lines_keep_columns(dir, order, depth, lines_at, dir.children.len());
    assert(dir_lines(dir, depth, lines_at) == all);
    assert forall|i: int| 0 <= i < all.len() implies keeps_columns(
        #[trigger] dir_lines(dir, depth, lines_at)[i],
        depth,
        lines_at,
    ) by {
        assert(keeps_columns(all[i], depth, lines_at));
    }
}

/// Of the children of a directory only the last gets the closing
/// connector: the line of a child, where it has one, closes the directory
/// exactly when the child is the last in the order of the paths.
pub proof fn lemma_only_the_last_child_closes(
    dir: TreeView,
    depth: nat,
    lines_at: Seq<usize>,
    k: int,
)
    requires
        0 <= k < dir.children.len(),
    ensures
        line_of_child(dir, depth, lines_at, k).len() <= 1,
        forall|i: int|
            0 <= i < line_of_child(dir, depth, lines_at, k).len() ==> {
                let line = #[trigger] line_of_child(dir, depth, lines_at, k)[i];
                &&& line.last == is_last_child(dir, k)
                &&& line.name == nth_child(dir, k).name->0
                &&& line.bars.len() == depth
            },
{
}

/// Bars follow the ancestors that go on. On every line below a child, the
/// column of the child's level holds a bar exactly when the child is not
/// the last of its directory, and the columns of the levels above are
/// drawn as on the line of the child itself: as `lines_at` says.
pub proof fn lemma_bars_follow_ancestors(dir: TreeView, depth: nat, lines_at: Seq<usize>, k: int)
    requires
        dir.renderable(depth),
        depth <= usize::MAX,
        0 <= k < dir.children.len(),
        !lines_at.contains(depth as usize),
    ensures
        forall|i: int|
            0 <= i < line_of_child(dir, depth, lines_at, k).len() ==> keeps_columns(
                #[trigger] line_of_child(dir, depth, lines_at, k)[i],
                depth,
                lines_at,
            ),
        forall|i: int|
            0 <= i < lines_under_child(dir, depth, lines_at, k).len() ==> {
                let line = #[trigger] lines_under_child(dir, depth, lines_at, k)[i];
                &&& line.bars.len() > depth
                &&& line.bars[depth as int] == !is_last_child(dir, k)
                &&& keeps_columns(line, depth, lines_at)
            },
{
    let child = nth_child(dir, k);
    let last = is_last_child(dir, k);
    let under = lines_under_child(dir, depth, lines_at, k);
    lemma_sort_order_sorted(tree_paths(dir.children));
    assert(0 <= sort_order(tree_paths(dir.children))[k] < dir.children.len());
    if descends(child) {
        let below = lines_below(depth, lines_at, last);
        lemma_dir_lines_keep_columns(child, depth + 1, below);
        assert forall|i: int| 0 <= i < under.len() implies {
            let line = #[trigger] under[i];
            &&& line.bars.len() > depth
            &&& line.bars[depth as int] == !last
            &&& keeps_columns(line, depth, lines_at)
        } by {
            assert(keeps_columns(under[i], depth + 1, below));
            lemma_contains_push(lines_at, depth as usize, depth as usize);
            assert forall|level: int| 0 <= level < depth implies under[i].bars[level]
                == lines_at.contains(level as usize) by {
                lemma_contains_push(lines_at, depth as usize, level as usize);
            }
        }
    }
}

proof fn lemma_child_lines_hide(
    dir: TreeView,
    order: Seq<int>,
    depth: nat,
    lines_at: Seq<usize>,
    k: nat,
)
    ensures
        forall|i: int|
            0 <= i < child_lines(dir, order, depth, lines_at, k).len() ==> !hidden_name(
                (#[trigger] child_lines(dir, order, depth, lines_at, k)[i]).name,
            ),
    decreases dir, k,
{
    if k > 0 {
        lemma_child_lines_hide(dir, order, depth, lines_at, (k - 1) as nat);
        let before = child_lines(dir, order, depth, lines_at, (k - 1) as nat);
        let all = child_lines(dir, order, depth, lines_at, k);
        let index = order[k - 1];
        if k <= order.len() && 0 <= index < dir.children.len() {
            let child = dir.children[index];
            let last = k == order.len();
            let own = item_line(child.name, depth, lines_at, last);
            let below = lines_below(depth, lines_at, last);
            let under = if descends(child) {
                dir_lines(child, depth + 1, below)
            } else {
                Seq::<TreeLine>::empty()
            };
            assert(all == before + own + under);
            if descends(child) {
                lemma_tree_hides_dot_names(child, depth + 1, below);
            }
            assert forall|i: int| 0 <= i < all.len() implies !hidden_name(
                (#[trigger] all[i]).name,
            ) by {
                if i < before.len() {
                    assert(all[i] == before[i]);
                } else if i < before.len() + own.len() {
                    assert(all[i] == own[i - before.len()]);
                } else {
                    assert(all[i] == under[i - before.len() - own.len()]);
                }
            }
        } else {
            assert(all == before);
        }
    }
}

/// No line of a tree holds a name that begins with a dot, and an entry with
/// such a name has no line and nothing below it has one.
pub proof fn lemma_tree_hides_dot_names(dir: TreeView, depth: nat, lines_at: Seq<usize>)
    ensures
        forall|i: int|
            0 <= i < dir_lines(dir, depth, lines_at).len() ==> !hidden_name(
                (#[trigger] dir_lines(dir, depth, lines_at)[i]).name,
            ),
        forall|k: int|
            0 <= k < dir.children.len() && nth_child(dir, k).name is Some && hidden_name(
                nth_child(dir, k).name->0,
            ) ==> (#[trigger] lines_under_child(dir, depth, lines_at, k)).len() == 0
                && line_of_child(dir, depth, lines_at, k).len() == 0,
    decreases dir, dir.children.len() + 1,
{
    let order = sort_order(tree_paths(dir.children));
    let all = child_lines(dir, order, depth, lines_at, dir.children.len());
    lemma_child_lines_hide(dir, order, depth, lines_at, dir.children.len());
    assert(dir_lines(dir, depth, lines_at) == all);
    assert forall|i: int| 0 <= i < all.len() implies !hidden_name(
        (#[trigger] dir_lines(dir, depth, lines_at)[i]).name,
    ) by {
        assert(!hidden_name(all[i].name));
    }
}

/// An entry whose name has no text form is passed over: it has no line,
/// and nothing below it has one, directory or not.
pub proof fn lemma_unnamed_entries_are_skipped(
    dir: TreeView,
    depth: nat,
    lines_at: Seq<usize>,
    k: int,
)
    requires
        0 <= k < dir.children.len(),
        nth_child(dir, k).name is None,
    ensures
        line_of_child(dir, depth, lines_at, k) == Seq::<TreeLine>::empty(),
        lines_under_child(dir, depth, lines_at, k) == Seq::<TreeLine>::empty(),
        lines_of_children(dir, depth, lines_at, (k + 1) as nat) == lines_of_children(
            dir,
            depth,
            lines_at,
            k as nat,
        ),
{
    lemma_lines_child_by_child(dir, depth, lines_at, k);
    assert(lines_of_children(dir, depth, lines_at, k as nat) + Seq::<TreeLine>::empty()
        + Seq::<TreeLine>::empty() =~= lines_of_children(dir, depth, lines_at, k as nat));
}

proof fn lemma_child_lines_by_child(
    a: TreeView,
    b: TreeView,
    depth: nat,
    lines_at: Seq<usize>,
    k: nat,
)
    requires
        a.children.len() == b.children.len(),
        forall|i: int| 0 <= i < a.children.len() ==> nth_child(a, i) == nth_child(b, i),
        k <= a.children.len(),
    ensures
        lines_of_children(a, depth, lines_at, k) == lines_of_children(b, depth, lines_at, k),
    decreases k,
{
    if k > 0 {
        lemma_child_lines_by_child(a, b, depth, lines_at, (k - 1) as nat);
        lemma_lines_child_by_child(a, depth, lines_at, k - 1);
        lemma_lines_child_by_child(b, depth, lines_at, k - 1);
        assert(nth_child(a, k - 1) == nth_child(b, k - 1));
    }
}

/// The order in which the system hands out the children of a directory
/// does not show in the tree: the same children, given in another order,
/// make the same lines. No two children of a directory share a path.
pub proof fn lemma_children_order_is_immaterial(
    a: TreeView,
    b: TreeView,
    depth: nat,
    lines_at: Seq<usize>,
)
    requires
        a.children.to_multiset() == b.children.to_multiset(),
        forall|i: int, j: int|
            0 <= i < j < a.children.len() ==> a.children[i].path != a.children[j].path,
    ensures
        dir_lines(a, depth, lines_at) == dir_lines(b, depth, lines_at),
{
    let path = |child: TreeView| child.path;
    vstd::seq_lib::to_multiset_len(a.children);
    vstd::seq_lib::to_multiset_len(b.children);
    lemma_arranged_unique(a.children, b.children, path);
    lemma_child_lines_by_child(a, b, depth, lines_at, a.children.len());
}

/// Whether two trees hold the same entries at every level, in whatever
/// order the children of each directory are held: the entries agree, and
/// so do, one by one, their children taken in the order of the paths.
pub open spec fn same_tree(a: TreeView, b: TreeView) -> bool
    decreases a,
{
    &&& a.path == b.path
    &&& a.name == b.name
    &&& a.is_dir == b.is_dir
    &&& a.children.len() == b.children.len()
    &&& forall|k: int|
        0 <= k < a.children.len() ==> {
            let i = #[trigger] sort_order(tree_paths(a.children))[k];
            0 <= i < a.children.len() ==> same_tree(a.children[i], nth_child(b, k))
        }
}

/// Every tree is the same tree as itself.
pub proof fn lemma_same_tree_reflexive(a: TreeView)
    ensures
        same_tree(a, a),
    decreases a,
{
    assert forall|k: int| 0 <= k < a.children.len() implies {
        let i = #[trigger] sort_order(tree_paths(a.children))[k];
        0 <= i < a.children.len() ==> same_tree(a.children[i], nth_child(a, k))
    } by {
        let i = sort_order(tree_paths(a.children))[k];
        lemma_sort_order_sorted(tree_paths(a.children));
        if 0 <= i < a.children.len() {
            lemma_same_tree_reflexive(a.children[i]);
            assert(nth_child(a, k) == a.children[i]);
        }
    }
}

proof fn lemma_same_tree_child_lines(
    a: TreeView,
    b: TreeView,
    depth: nat,
    lines_at: Seq<usize>,
    k: nat,
)
    requires
        same_tree(a, b),
        k <= a.children.len(),
    ensures
        lines_of_children(a, depth, lines_at, k) == lines_of_children(b, depth, lines_at, k),
    decreases a, k,
{
    if k > 0 {
        lemma_same_tree_child_lines(a, b, depth, lines_at, (k - 1) as nat);
        lemma_lines_child_by_child(a, depth, lines_at, k - 1);
        lemma_lines_child_by_child(b, depth, lines_at, k - 1);
        lemma_sort_order_sorted(tree_paths(a.children));
        let i = sort_order(tree_paths(a.children))[k - 1];
        assert(0 <= i < a.children.len());
        let child = nth_child(a, k - 1);
        let other = nth_child(b, k - 1);
        assert(child == a.children[i]);
        assert(same_tree(child, other));
        if descends(child) {
            lemma_same_tree_same_lines(
                child,
                other,
                depth + 1,
                lines_below(depth, lines_at, is_last_child(a, k - 1)),
            );
        }
    }
}

/// The same tree makes the same lines, however the children of its
/// directories were handed out.
pub proof fn lemma_same_tree_same_lines(a: TreeView, b: TreeView, depth: nat, lines_at: Seq<usize>)
    requires
        same_tree(a, b),
    ensures
        dir_lines(a, depth, lines_at) == dir_lines(b, depth, lines_at),
    decreases a, a.children.len() + 1,
{
    lemma_same_tree_child_lines(a, b, depth, lines_at, a.children.len());
}

} // verus!
