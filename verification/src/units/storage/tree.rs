use vstd::prelude::*;
use vstd::string::*;

use crate::lexis::token::TokenRule;
use crate::units::storage::spread::Spread;

verus! {

/// The branching factor of the branch layers of a [TokenTree].
pub const BRANCH_B: usize = 6;

/// The branching factor of the page layer of a [TokenTree].
pub const TREE_PAGE_B: usize = 6;

/// A token of the source code with its text: the token's rule, its length
/// in characters, and its text.
pub struct Chunk {
    pub token: TokenRule,
    pub span: usize,
    pub string: String,
}

/// A node of a [TokenTree]: a page of chunks, or a branch of nodes one
/// layer lower.
pub enum TreeNode {
    Page(Vec<Chunk>),
    Branch(Vec<TreeNode>),
}

/// The chunks under `node`, in order.
pub open spec fn node_chunks(node: TreeNode) -> Seq<Chunk>
    decreases node,
{
    match node {
        TreeNode::Page(chunks) => chunks@,
        TreeNode::Branch(children) => nodes_chunks(children@),
    }
}

/// The chunks under the nodes of `nodes`, in order.
pub open spec fn nodes_chunks(nodes: Seq<TreeNode>) -> Seq<Chunk>
    decreases nodes,
{
    if nodes.len() == 0 {
        Seq::empty()
    } else {
        nodes_chunks(nodes.drop_last()) + node_chunks(nodes.last())
    }
}

/// True when `node` has height `height` with every page at the bottom
/// layer, and no node is empty.
pub open spec fn balanced(node: TreeNode, height: nat) -> bool
    decreases node,
{
    match node {
        TreeNode::Page(chunks) => height == 1 && chunks@.len() > 0,
        TreeNode::Branch(children) => height > 1 && children@.len() > 0 && forall|i: int|
            0 <= i < children@.len() ==> balanced(#[trigger] children@[i], (height - 1) as nat),
    }
}

/// A balanced node holds at least one chunk.
proof fn lemma_balanced_nonempty(node: TreeNode, height: nat)
    requires
        balanced(node, height),
    ensures
        node_chunks(node).len() > 0,
    decreases node,
{
    match node {
        TreeNode::Page(chunks) => {},
        TreeNode::Branch(children) => {
            let nodes = children@;
            let last = nodes.last();
            assert(balanced(nodes[nodes.len() - 1], (height - 1) as nat));
            lemma_balanced_nonempty(last, (height - 1) as nat);
            lemma_nodes_chunks_push(nodes.drop_last(), last);
            assert(nodes.drop_last().push(last) =~= nodes);
        },
    }
}

/// The elements of `items` in reverse order.
pub(crate) fn reversed<T>(items: Vec<T>) -> (result: Vec<T>)
    ensures
        result@.len() == items@.len(),
        forall|k: int| 0 <= k < items@.len() ==> #[trigger] result@[k] == items@[items@.len() - 1 - k],
{
    let ghost input = items@;
    let ghost n = input.len();
    let mut items = items;
    let mut result: Vec<T> = Vec::new();
    while items.len() > 0
        invariant
            items@.len() <= n,
            forall|k: int| 0 <= k < items@.len() ==> #[trigger] items@[k] == input[k],
            result@.len() == n - items@.len(),
            forall|k: int| 0 <= k < result@.len() ==> #[trigger] result@[k] == input[n - 1 - k],
        decreases items@.len(),
    {
        let item = items.pop().unwrap();
        result.push(item);
    }
    result
}

/// Appending a node to a sequence of nodes appends its chunks.
proof fn lemma_nodes_chunks_push(nodes: Seq<TreeNode>, node: TreeNode)
    ensures
        nodes_chunks(nodes.push(node)) == nodes_chunks(nodes) + node_chunks(node),
{
    assert(nodes.push(node).drop_last() =~= nodes);
}

/// The number of children of a node: chunks of a page, nodes of a branch.
pub open spec fn width(node: TreeNode) -> nat {
    match node {
        TreeNode::Page(chunks) => chunks@.len(),
        TreeNode::Branch(children) => children@.len(),
    }
}

/// The number of nodes a layer of `total` items gets with branching factor
/// `b`: one when they fit into a node of capacity `2 * b - 1`, otherwise
/// `total / b`.
pub open spec fn spread_count(b: nat, total: nat) -> nat {
    if total <= 2 * b - 1 {
        1
    } else {
        total / b
    }
}

/// The number of items of the leading nodes of such a layer: all of them
/// for one node, otherwise `b` and an even share of the remainder.
pub open spec fn spread_items(b: nat, total: nat) -> nat {
    if total <= 2 * b - 1 {
        total
    } else {
        b + (total % b) / (total / b)
    }
}

/// The number of trailing nodes of such a layer that take one item more.
pub open spec fn spread_tail(b: nat, total: nat) -> nat {
    if total <= 2 * b - 1 {
        0
    } else {
        (total % b) % (total / b)
    }
}

/// The number of items of the node at `index` of such a layer.
pub open spec fn spread_width(b: nat, total: nat, index: int) -> nat {
    if index < spread_count(b, total) - spread_tail(b, total) {
        spread_items(b, total)
    } else {
        spread_items(b, total) + 1
    }
}

/// The numbers of chunks of the pages under `node`, in order.
pub open spec fn node_pages(node: TreeNode) -> Seq<nat>
    decreases node,
{
    match node {
        TreeNode::Page(chunks) => seq![chunks@.len()],
        TreeNode::Branch(children) => nodes_pages(children@),
    }
}

/// The numbers of chunks of the pages under the nodes of `nodes`, in order.
pub open spec fn nodes_pages(nodes: Seq<TreeNode>) -> Seq<nat>
    decreases nodes,
{
    if nodes.len() == 0 {
        Seq::empty()
    } else {
        nodes_pages(nodes.drop_last()) + node_pages(nodes.last())
    }
}

/// Appending a node to a sequence of nodes appends its pages.
proof fn lemma_nodes_pages_push(nodes: Seq<TreeNode>, node: TreeNode)
    ensures
        nodes_pages(nodes.push(node)) == nodes_pages(nodes) + node_pages(node),
{
    assert(nodes.push(node).drop_last() =~= nodes);
}

/// True when `node`, a node below the root, holds at least `B` and at most
/// `2 * B - 1` children at every layer (`B` is `page_b` for pages and
/// [BRANCH_B] for branches), and has height `height`.
pub open spec fn fits(node: TreeNode, height: nat, page_b: nat) -> bool
    decreases node,
{
    match node {
        TreeNode::Page(chunks) => height == 1 && page_b <= chunks@.len() <= 2 * page_b - 1,
        TreeNode::Branch(children) => height > 1 && BRANCH_B <= children@.len() <= 2 * BRANCH_B - 1
            && forall|i: int| 0 <= i < children@.len() ==> fits(#[trigger] children@[i], (height - 1) as nat, page_b),
    }
}

/// True when `node`, the root of a tree of height `height`, holds at most
/// `2 * B - 1` children, at least one chunk as a page and at least two
/// nodes as a branch, and every node below it fits.
pub open spec fn root_fits(node: TreeNode, height: nat, page_b: nat) -> bool {
    match node {
        TreeNode::Page(chunks) => height == 1 && 1 <= chunks@.len() <= 2 * page_b - 1,
        TreeNode::Branch(children) => height > 1 && 2 <= children@.len() <= 2 * BRANCH_B - 1
            && forall|i: int| 0 <= i < children@.len() ==> fits(#[trigger] children@[i], (height - 1) as nat, page_b),
    }
}

/// Groups the chunks into pages, as a [Spread] of the page branching factor
/// distributes them: a single page when they fit into one, otherwise pages
/// of `page_b` to `2 * page_b - 1` chunks.
fn build_pages(chunks: Vec<Chunk>, page_b: usize) -> (pages: Vec<TreeNode>)
    requires
        chunks@.len() > 0,
        2 <= page_b <= 1024,
    ensures
        pages@.len() > 0,
        pages@.len() <= chunks@.len(),
        nodes_chunks(pages@) == chunks@,
        forall|j: int| 0 <= j < pages@.len() ==> balanced(#[trigger] pages@[j], 1),
        nodes_pages(pages@) == Seq::new(
            spread_count(page_b as nat, chunks@.len()),
            |j: int| spread_width(page_b as nat, chunks@.len(), j),
        ),
        chunks@.len() <= 2 * page_b - 1 ==> pages@.len() == 1 && root_fits(pages@[0], 1, page_b as nat),
        chunks@.len() > 2 * page_b - 1 ==> {
            &&& 2 <= pages@.len()
            &&& pages@.len() * 2 <= chunks@.len()
            &&& forall|j: int| 0 <= j < pages@.len() ==> fits(#[trigger] pages@[j], 1, page_b as nat)
        },
{
    let n = chunks.len();
    let ghost input = chunks@;
    let ghost cap = 2 * page_b - 1;
    let ghost single = n <= cap;
    let ghost low: int = if single { 1 } else { page_b as int };
    let mut rest = reversed(chunks);
    let mut spread = Spread::new(page_b, n);
    let ghost head0 = spread.spec_head();
    let ghost tail0 = spread.spec_tail();
    let ghost items0 = spread.spec_items();
    let ghost count = spread_count(page_b as nat, n as nat);
    let ghost widths = Seq::new(count, |j: int| spread_width(page_b as nat, n as nat, j));
    assert(head0 == count - spread_tail(page_b as nat, n as nat));
    assert(tail0 == spread_tail(page_b as nat, n as nat));
    assert(items0 == spread_items(page_b as nat, n as nat));
    let mut pages: Vec<TreeNode> = Vec::new();
    assert(nodes_pages(pages@) =~= widths.take(0));
    let mut current: Vec<Chunk> = Vec::new();
    let mut i: usize = 0;
    let ghost mut flushed: int = 0;
    assert(input.take(0) =~= Seq::<Chunk>::empty());
    assert(nodes_chunks(pages@) + current@ =~= input.take(0));
    while i < n
        invariant
            spread.wf(),
            spread.remaining() == n - i,
            n == input.len(),
            n > 0,
            i <= n,
            2 <= page_b <= 1024,
            cap == 2 * page_b - 1,
            single == (n <= cap),
            low == (if single { 1int } else { page_b as int }),
            spread.spec_items() <= cap,
            !single ==> spread.spec_items() >= page_b,
            spread.spec_head() > 0 && spread.spec_tail() > 0 ==> spread.spec_items() + 1 <= cap,
            single ==> spread.spec_head() == 1 && spread.spec_tail() == 0 && spread.spec_items() == n,
            single ==> pages@.len() == 0,
            i == 0 ==> current@.len() == 0 && spread.spec_next() == 0,
            i > 0 ==> current@.len() == spread.spec_next() && current@.len() > 0,
            rest@.len() == n - i,
            forall|k: int| 0 <= k < rest@.len() ==> #[trigger] rest@[k] == input[n - 1 - k],
            nodes_chunks(pages@) + current@ == input.take(i as int),
            forall|j: int| 0 <= j < pages@.len() ==> balanced(#[trigger] pages@[j], 1),
            forall|j: int| 0 <= j < pages@.len() ==> fits(#[trigger] pages@[j], 1, page_b as nat),
            flushed + current@.len() == i,
            pages@.len() * page_b <= flushed,
            pages@.len() == 0 ==> flushed == 0,
            count == spread_count(page_b as nat, n as nat),
            head0 == count - tail0,
            head0 >= 1,
            items0 >= 1,
            widths == Seq::new(count, |j: int| spread_width(page_b as nat, n as nat, j)),
            tail0 == spread_tail(page_b as nat, n as nat),
            items0 == spread_items(page_b as nat, n as nat),
            pages@.len() < head0 ==> spread.spec_items() == items0 && spread.spec_head() == head0 - pages@.len()
                && spread.spec_tail() == tail0,
            pages@.len() >= head0 ==> spread.spec_items() == items0 + 1 && spread.spec_head() == 0
                && spread.spec_tail() + (pages@.len() - head0) == tail0,
            pages@.len() < count,
            nodes_pages(pages@) == widths.take(pages@.len() as int),
        decreases n - i,
    {
        proof {
            if single {
                spread.lemma_single_node();
            }
            spread.lemma_next_bound();
        }
        let ghost old_items = spread.spec_items();
        let ghost old_next = spread.spec_next();
        let ghost k0 = pages@.len() as int;
        assert(k0 < head0 ==> old_items == items0);
        assert(k0 >= head0 ==> old_items == items0 + 1);
        let index = spread.advance();
        assert(rest@[rest@.len() - 1] == input[i as int]);
        let chunk = rest.pop().unwrap();
        if index == 0 && current.len() > 0 {
            let ghost before = pages@;
            let ghost size = current@.len();
            assert(size == old_items);
            let page = TreeNode::Page(current);
            proof {
                let k = before.len() as int;
                assert(k == k0);
                assert(spread_items(page_b as nat, n as nat) == items0);
                if k < head0 {
                    assert(k < count - spread_tail(page_b as nat, n as nat));
                    assert(spread_width(page_b as nat, n as nat, k) == items0);
                    assert(size == items0);
                } else {
                    assert(!(k < count - spread_tail(page_b as nat, n as nat)));
                    assert(spread_width(page_b as nat, n as nat, k) == items0 + 1);
                    assert(size == items0 + 1);
                }
                spread.lemma_has_node();
                lemma_nodes_pages_push(before, page);
                assert(widths.take(k + 1) =~= widths.take(k).push(widths[k]));
                assert(node_pages(page) =~= seq![size as nat]);
                lemma_nodes_chunks_push(before, page);
                assert(fits(page, 1, page_b as nat));
                assert((before.len() + 1) * page_b == before.len() * page_b + page_b) by (nonlinear_arith);
                flushed = flushed + size;
            }
            pages.push(page);
            current = Vec::new();
        }
        let ghost before = current@;
        current.push(chunk);
        assert(input.take(i + 1) =~= input.take(i as int).push(input[i as int]));
        assert(nodes_chunks(pages@) + current@ =~= input.take(i + 1));
        i = i + 1;
    }
    proof {
        spread.lemma_finished();
        spread.lemma_finished_in_last();
    }
    assert(input.take(n as int) =~= input);
    let ghost before = pages@;
    let ghost size = current@.len();
    let page = TreeNode::Page(current);
    proof {
        let k = before.len() as int;
        assert(k + 1 == count);
        assert(size == spread_width(page_b as nat, n as nat, k));
        lemma_nodes_pages_push(before, page);
        assert(widths.take(k + 1) =~= widths.take(k).push(widths[k]));
        assert(widths.take(k + 1) =~= widths);
        assert(node_pages(page) =~= seq![size as nat]);
        lemma_nodes_chunks_push(before, page);
        if !single {
            assert(fits(page, 1, page_b as nat));
            assert((before.len() + 1) * page_b == before.len() * page_b + page_b) by (nonlinear_arith);
            assert((before.len() + 1) * 2 <= (before.len() + 1) * page_b) by (nonlinear_arith)
                requires
                    page_b >= 2,
            ;
        } else {
            assert(before.len() == 0);
        }
    }
    pages.push(page);
    proof {
        if single {
            assert(pages@[0] == page);
        }
    }
    pages
}

/// Groups the nodes of one layer under branches of the next layer, as a
/// [Spread] of the branch branching factor distributes them: a single
/// branch when they fit into one, otherwise branches of [BRANCH_B] to
/// `2 * BRANCH_B - 1` nodes.
fn build_branches(nodes: Vec<TreeNode>, Ghost(height): Ghost<nat>, Ghost(page_b): Ghost<nat>) -> (branches: Vec<TreeNode>)
    requires
        nodes@.len() > 0,
        height >= 1,
        forall|j: int| 0 <= j < nodes@.len() ==> balanced(#[trigger] nodes@[j], height),
        forall|j: int| 0 <= j < nodes@.len() ==> fits(#[trigger] nodes@[j], height, page_b),
    ensures
        branches@.len() > 0,
        branches@.len() <= nodes@.len(),
        nodes_chunks(branches@) == nodes_chunks(nodes@),
        nodes_pages(branches@) == nodes_pages(nodes@),
        forall|j: int| 0 <= j < branches@.len() ==> balanced(#[trigger] branches@[j], height + 1),
        nodes@.len() <= 2 * BRANCH_B - 1 ==> {
            &&& branches@.len() == 1
            &&& width(branches@[0]) == nodes@.len()
            &&& nodes@.len() >= 2 ==> root_fits(branches@[0], height + 1, page_b)
        },
        nodes@.len() > 2 * BRANCH_B - 1 ==> {
            &&& 2 <= branches@.len()
            &&& branches@.len() * 2 <= nodes@.len()
            &&& forall|j: int| 0 <= j < branches@.len() ==> fits(#[trigger] branches@[j], height + 1, page_b)
        },
{
    let n = nodes.len();
    let ghost input = nodes@;
    let ghost cap = 2 * BRANCH_B - 1;
    let ghost single = n <= cap;
    let mut rest = reversed(nodes);
    let mut spread = Spread::new(BRANCH_B, n);
    let mut branches: Vec<TreeNode> = Vec::new();
    let mut current: Vec<TreeNode> = Vec::new();
    let mut i: usize = 0;
    let ghost mut flushed: int = 0;
    assert(input.take(0) =~= Seq::<TreeNode>::empty());
    assert(nodes_pages(branches@) + nodes_pages(current@) =~= nodes_pages(input.take(0)));
    while i < n
        invariant
            spread.wf(),
            spread.remaining() == n - i,
            n == input.len(),
            n > 0,
            i <= n,
            height >= 1,
            cap == 2 * BRANCH_B - 1,
            single == (n <= cap),
            forall|j: int| 0 <= j < input.len() ==> balanced(#[trigger] input[j], height),
            forall|j: int| 0 <= j < input.len() ==> fits(#[trigger] input[j], height, page_b),
            spread.spec_items() <= cap,
            !single ==> spread.spec_items() >= BRANCH_B,
            spread.spec_head() > 0 && spread.spec_tail() > 0 ==> spread.spec_items() + 1 <= cap,
            single ==> spread.spec_head() == 1 && spread.spec_tail() == 0 && spread.spec_items() == n,
            single ==> branches@.len() == 0,
            i == 0 ==> current@.len() == 0 && spread.spec_next() == 0,
            i > 0 ==> current@.len() == spread.spec_next() && current@.len() > 0,
            rest@.len() == n - i,
            forall|k: int| 0 <= k < rest@.len() ==> #[trigger] rest@[k] == input[n - 1 - k],
            nodes_chunks(branches@) + nodes_chunks(current@) == nodes_chunks(input.take(i as int)),
            nodes_pages(branches@) + nodes_pages(current@) == nodes_pages(input.take(i as int)),
            forall|j: int| 0 <= j < branches@.len() ==> balanced(#[trigger] branches@[j], height + 1),
            forall|j: int| 0 <= j < branches@.len() ==> fits(#[trigger] branches@[j], height + 1, page_b),
            forall|j: int| 0 <= j < current@.len() ==> balanced(#[trigger] current@[j], height),
            forall|j: int| 0 <= j < current@.len() ==> fits(#[trigger] current@[j], height, page_b),
            flushed + current@.len() == i,
            branches@.len() * BRANCH_B <= flushed,
            branches@.len() == 0 ==> flushed == 0,
        decreases n - i,
    {
        proof {
            if single {
                spread.lemma_single_node();
            }
            spread.lemma_next_bound();
        }
        let ghost old_items = spread.spec_items();
        let index = spread.advance();
        assert(rest@[rest@.len() - 1] == input[i as int]);
        let node = rest.pop().unwrap();
        if index == 0 && current.len() > 0 {
            let ghost before = branches@;
            let ghost children = current@;
            let ghost size = current@.len();
            assert(size == old_items);
            let branch = TreeNode::Branch(current);
            proof {
                lemma_nodes_chunks_push(before, branch);
                lemma_nodes_pages_push(before, branch);
                assert(node_chunks(branch) == nodes_chunks(children));
                assert(node_pages(branch) == nodes_pages(children));
                assert(balanced(branch, height + 1));
                assert(fits(branch, height + 1, page_b));
                assert((before.len() + 1) * BRANCH_B == before.len() * BRANCH_B + BRANCH_B) by (nonlinear_arith);
                flushed = flushed + size;
            }
            branches.push(branch);
            current = Vec::new();
            assert(nodes_chunks(current@) =~= Seq::<Chunk>::empty());
            assert(nodes_pages(current@) =~= Seq::<nat>::empty());
            assert(nodes_pages(branches@) + nodes_pages(current@) =~= nodes_pages(branches@));
        }
        let ghost before = current@;
        current.push(node);
        proof {
            lemma_nodes_chunks_push(before, node);
            lemma_nodes_chunks_push(input.take(i as int), input[i as int]);
            lemma_nodes_pages_push(before, node);
            lemma_nodes_pages_push(input.take(i as int), input[i as int]);
            assert(input.take(i + 1) =~= input.take(i as int).push(input[i as int]));
        }
        i = i + 1;
    }
    proof {
        spread.lemma_finished();
    }
    assert(input.take(n as int) =~= input);
    let ghost before = branches@;
    let ghost children = current@;
    let branch = TreeNode::Branch(current);
    proof {
        lemma_nodes_chunks_push(before, branch);
        lemma_nodes_pages_push(before, branch);
        assert(node_pages(branch) == nodes_pages(children));
        assert(balanced(branch, height + 1));
        if !single {
            assert(fits(branch, height + 1, page_b));
            assert((before.len() + 1) * BRANCH_B == before.len() * BRANCH_B + BRANCH_B) by (nonlinear_arith);
            assert((before.len() + 1) * 2 <= (before.len() + 1) * BRANCH_B) by (nonlinear_arith);
        } else {
            assert(before.len() == 0);
            assert(children.len() == n);
            if n >= 2 {
                assert(root_fits(branch, height + 1, page_b));
            }
        }
    }
    branches.push(branch);
    proof {
        if single {
            assert(branches@[0] == branch);
        }
    }
    branches
}

/// True when every chunk of `chunks` covers at least one character.
pub open spec fn spans_positive(chunks: Seq<Chunk>) -> bool {
    forall|i: int| 0 <= i < chunks.len() ==> #[trigger] chunks[i].span > 0
}

/// Appends the chunks under `node` to `out`.
fn collect(node: TreeNode, Ghost(height): Ghost<nat>, out: &mut Vec<Chunk>)
    requires
        balanced(node, height),
    ensures
        final(out)@ == old(out)@ + node_chunks(node),
    decreases height,
{
    match node {
        TreeNode::Page(chunks) => {
            let mut chunks = chunks;
            out.append(&mut chunks);
        },
        TreeNode::Branch(children) => {
            let ghost input = children@;
            let ghost start = out@;
            let n = children.len();
            let mut rest = reversed(children);
            let mut i: usize = 0;
            assert(input.take(0) =~= Seq::<TreeNode>::empty());
            assert(out@ =~= start + nodes_chunks(input.take(0)));
            while i < n
                invariant
                    n == input.len(),
                    height > 1,
                    forall|j: int| 0 <= j < input.len() ==> balanced(#[trigger] input[j], (height - 1) as nat),
                    i <= n,
                    rest@.len() == n - i,
                    forall|k: int| 0 <= k < rest@.len() ==> #[trigger] rest@[k] == input[n - 1 - k],
                    out@ == start + nodes_chunks(input.take(i as int)),
                decreases n - i,
            {
                assert(rest@[rest@.len() - 1] == input[i as int]);
                let child = rest.pop().unwrap();
                collect(child, Ghost((height - 1) as nat), out);
                proof {
                    lemma_nodes_chunks_push(input.take(i as int), input[i as int]);
                    assert(input.take(i + 1) =~= input.take(i as int).push(input[i as int]));
                }
                i = i + 1;
            }
            assert(input.take(n as int) =~= input);
        },
    }
}

/// A balanced tree of the chunks of a source code: pages of chunks at the
/// bottom layer and branches above them, every page at the same depth.
pub struct TokenTree {
    root: Option<TreeNode>,
    height: usize,
}

impl TokenTree {
    /// The chunks of the tree, in order.
    pub closed spec fn chunks(&self) -> Seq<Chunk> {
        match self.root {
            Some(node) => node_chunks(node),
            None => Seq::empty(),
        }
    }

    /// The numbers of chunks of the tree's pages, in order.
    pub closed spec fn pages(&self) -> Seq<nat> {
        match self.root {
            Some(node) => node_pages(node),
            None => Seq::empty(),
        }
    }

    /// The number of layers of the tree: zero for the empty tree.
    pub closed spec fn spec_height(&self) -> nat {
        self.height as nat
    }

    /// Well-formedness: the tree is balanced at its height, every node
    /// holds as many children as its layer's branching factor allows (see
    /// [root_fits]), and every chunk covers at least one character.
    pub closed spec fn wf(&self) -> bool {
        &&& match self.root {
            Some(node) => {
                &&& self.height >= 1
                &&& balanced(node, self.height as nat)
                &&& root_fits(node, self.height as nat, TREE_PAGE_B as nat)
            },
            None => self.height == 0,
        }
        &&& spans_positive(self.chunks())
        &&& self.chunks().len() < usize::MAX
        &&& self.height <= self.chunks().len()
    }

    /// Creates a tree without chunks.
    pub fn new() -> (result: Self)
        ensures
            result.wf(),
            result.chunks() == Seq::<Chunk>::empty(),
            result.spec_height() == 0,
    {
        TokenTree { root: None, height: 0 }
    }

    /// Builds a tree of the given chunks: pages as a [Spread] of the page
    /// branching factor distributes the chunks, then branch layers as
    /// spreads of the branch branching factor distribute the nodes below,
    /// up to a single root.
    pub fn from_chunks(chunks: Vec<Chunk>) -> (result: Self)
        requires
            spans_positive(chunks@),
            chunks@.len() < usize::MAX,
        ensures
            result.wf(),
            result.chunks() == chunks@,
            chunks@.len() > 0 ==> result.pages() == Seq::new(
                spread_count(TREE_PAGE_B as nat, chunks@.len()),
                |j: int| spread_width(TREE_PAGE_B as nat, chunks@.len(), j),
            ),
    {
        if chunks.len() == 0 {
            let result = Self::new();
            assert(result.chunks() =~= chunks@);
            return result;
        }
        let ghost input = chunks@;
        let n = chunks.len();
        let mut layer = build_pages(chunks, TREE_PAGE_B);
        let mut height: usize = 1;
        while layer.len() > 1
            invariant
                n == input.len(),
                n < usize::MAX,
                layer@.len() > 0,
                height >= 1,
                height + layer@.len() <= n + 1,
                nodes_chunks(layer@) == input,
                nodes_pages(layer@) == Seq::new(
                    spread_count(TREE_PAGE_B as nat, n as nat),
                    |j: int| spread_width(TREE_PAGE_B as nat, n as nat, j),
                ),
                forall|j: int| 0 <= j < layer@.len() ==> balanced(#[trigger] layer@[j], height as nat),
                layer@.len() > 1 ==> forall|j: int|
                    0 <= j < layer@.len() ==> fits(#[trigger] layer@[j], height as nat, TREE_PAGE_B as nat),
                layer@.len() == 1 ==> root_fits(layer@[0], height as nat, TREE_PAGE_B as nat),
            decreases layer@.len(),
        {
            let next = build_branches(layer, Ghost(height as nat), Ghost(TREE_PAGE_B as nat));
            layer = next;
            height = height + 1;
        }
        let ghost last = layer@[0];
        assert(layer@ =~= seq![last]);
        let root = layer.pop().unwrap();
        let ghost single = seq![root];
        proof {
            assert(nodes_chunks(single) == nodes_chunks(single.drop_last()) + node_chunks(root));
            assert(nodes_pages(single) == nodes_pages(single.drop_last()) + node_pages(root));
            assert(single.drop_last() =~= Seq::<TreeNode>::empty());
            assert(nodes_pages(single) =~= node_pages(root));
        }
        let result = TokenTree { root: Some(root), height };
        assert(result.chunks() =~= input);
        result
    }

    /// The chunks of the tree, in order, consuming the tree.
    pub fn into_chunks(self) -> (result: Vec<Chunk>)
        requires
            self.wf(),
        ensures
            result@ == self.chunks(),
            spans_positive(result@),
    {
        let mut out: Vec<Chunk> = Vec::new();
        match self.root {
            Some(node) => {
                collect(node, Ghost(self.height as nat), &mut out);
                assert(out@ =~= self.chunks());
            },
            None => {
                assert(out@ =~= self.chunks());
            },
        }
        out
    }

    /// Replaces the chunks `from..to` with `replacement`, in place: within
    /// the page that holds them when it stays within its bounds; otherwise
    /// the tree is split around the replaced chunks, and the tree of the
    /// replacement is joined between the two parts.
    pub fn write(&mut self, from: usize, to: usize, replacement: Vec<Chunk>)
        requires
            old(self).wf(),
            from <= to <= old(self).chunks().len(),
            spans_positive(replacement@),
            old(self).chunks().len() - (to - from) + replacement@.len() < usize::MAX,
        ensures
            final(self).wf(),
            final(self).chunks() == old(self).chunks().subrange(0, from as int) + replacement@
                + old(self).chunks().subrange(to as int, old(self).chunks().len() as int),
    {
        let ghost all = self.chunks();
        let ghost inserted = replacement@;
        let mut tree = TokenTree::new();
        std::mem::swap(self, &mut tree);
        let TokenTree { root, height } = tree;
        let replacement = match root {
            Some(node) => {
                proof {
                    lemma_spans_positive_subrange(all, 0, from as int);
                    lemma_spans_positive_subrange(all, to as int, all.len() as int);
                    assert(all.take(from as int) =~= all.subrange(0, from as int));
                    assert(all.skip(to as int) =~= all.subrange(to as int, all.len() as int));
                    lemma_spans_positive_concat(all.take(from as int), inserted);
                    lemma_spans_positive_concat(all.take(from as int) + inserted, all.skip(to as int));
                }
                let (node, back) = write_in_node(node, height, from, to, replacement, true);
                match back {
                    None => {
                        proof {
                            if height > 1 {
                                let children = node->Branch_0@;
                                assert(fits(children[0], (height - 1) as nat, TREE_PAGE_B as nat));
                                assert(fits(children[1], (height - 1) as nat, TREE_PAGE_B as nat));
                                lemma_fits_len(children[0], (height - 1) as nat);
                                lemma_fits_len(children[1], (height - 1) as nat);
                                lemma_pair_len(children);
                            }
                        }
                        *self = TokenTree { root: Some(node), height };
                        assert(self.chunks() =~= all.subrange(0, from as int) + inserted + all.subrange(
                            to as int,
                            all.len() as int,
                        ));
                        return;
                    },
                    Some(back) => {
                        *self = TokenTree { root: Some(node), height };
                        back
                    },
                }
            },
            None => {
                *self = TokenTree { root: None, height };
                replacement
            },
        };
        assert(self.chunks() == all);
        let right = self.split(to);
        let _removed = self.split(from);
        let middle = TokenTree::from_chunks(replacement);
        assert(self.chunks() =~= all.subrange(0, from as int));
        self.join(middle);
        self.join(right);
        assert(self.chunks() =~= all.subrange(0, from as int) + inserted + all.subrange(to as int, all.len() as int));
    }

    /// The root node of the tree, `None` for the empty tree.
    pub fn root(&self) -> (result: Option<&TreeNode>)
        requires
            self.wf(),
        ensures
            result is None <==> self.chunks().len() == 0,
            result matches Some(node) ==> {
                &&& node_chunks(*node) == self.chunks()
                &&& balanced(*node, self.spec_height())
                &&& root_fits(*node, self.spec_height(), TREE_PAGE_B as nat)
            },
    {
        match &self.root {
            Some(node) => {
                proof {
                    lemma_balanced_nonempty(*node, self.height as nat);
                }
                Some(node)
            },
            None => None,
        }
    }

    /// The number of layers of the tree: zero for the empty tree.
    pub fn height(&self) -> (result: usize)
        ensures
            result == self.spec_height(),
    {
        self.height
    }
}

/// The number of characters the chunks cover.
pub open spec fn spans_sum(chunks: Seq<Chunk>) -> nat
    decreases chunks.len(),
{
    if chunks.len() == 0 {
        0
    } else {
        spans_sum(chunks.drop_last()) + chunks.last().span as nat
    }
}

/// The characters of a concatenation are those of its parts.
pub proof fn lemma_spans_sum_concat(a: Seq<Chunk>, b: Seq<Chunk>)
    ensures
        spans_sum(a + b) == spans_sum(a) + spans_sum(b),
    decreases b.len(),
{
    if b.len() == 0 {
        assert(a + b =~= a);
    } else {
        lemma_spans_sum_concat(a, b.drop_last());
        assert((a + b).drop_last() =~= a + b.drop_last());
    }
}

/// True when `site` falls into the chunk at `index` of `chunks`, `offset`
/// characters after its start.
pub open spec fn locates(chunks: Seq<Chunk>, site: int, index: int, offset: int) -> bool {
    &&& 0 <= index < chunks.len()
    &&& spans_sum(chunks.take(index)) + offset == site
    &&& 0 <= offset < chunks[index].span
}

/// Looks for the chunk that `site` falls into under `node`. Returns whether
/// it was found, the index of the chunk (or the number of chunks when not),
/// and the offset within the chunk (or the characters left past the node).
fn locate(node: &TreeNode, Ghost(height): Ghost<nat>, site: usize) -> (result: (bool, usize, usize))
    requires
        balanced(*node, height),
        node_chunks(*node).len() < usize::MAX,
    ensures
        result.0 ==> locates(node_chunks(*node), site as int, result.1 as int, result.2 as int),
        !result.0 ==> {
            &&& result.1 == node_chunks(*node).len()
            &&& spans_sum(node_chunks(*node)) + result.2 == site
        },
    decreases height,
{
    match node {
        TreeNode::Page(chunks) => {
            let mut index: usize = 0;
            let mut rest = site;
            assert(chunks@.take(0) =~= Seq::<Chunk>::empty());
            assert(node_chunks(*node) == chunks@);
            while index < chunks.len()
                invariant
                    node_chunks(*node) == chunks@,
                    index <= chunks@.len(),
                    spans_sum(chunks@.take(index as int)) + rest == site,
                decreases chunks@.len() - index,
            {
                let span = chunks[index].span;
                if rest < span {
                    assert(node_chunks(*node) == chunks@);
                    return (true, index, rest);
                }
                proof {
                    assert(chunks@.take(index + 1).drop_last() =~= chunks@.take(index as int));
                }
                rest = rest - span;
                index = index + 1;
            }
            assert(chunks@.take(index as int) =~= chunks@);
            assert(node_chunks(*node) == chunks@);
            (false, index, rest)
        },
        TreeNode::Branch(children) => {
            let ghost nodes = children@;
            let mut i: usize = 0;
            let mut index: usize = 0;
            let mut rest = site;
            assert(nodes.take(0) =~= Seq::<TreeNode>::empty());
            proof {
                lemma_nodes_chunks_take(nodes, nodes.len() as int);
            }
            assert(node_chunks(*node) == nodes_chunks(nodes));
            while i < children.len()
                invariant
                    node_chunks(*node) == nodes_chunks(nodes),
                    nodes == children@,
                    height > 1,
                    forall|j: int| 0 <= j < nodes.len() ==> balanced(#[trigger] nodes[j], (height - 1) as nat),
                    nodes_chunks(nodes).len() < usize::MAX,
                    i <= nodes.len(),
                    index == nodes_chunks(nodes.take(i as int)).len(),
                    spans_sum(nodes_chunks(nodes.take(i as int))) + rest == site,
                decreases nodes.len() - i,
            {
                let ghost before = nodes_chunks(nodes.take(i as int));
                let ghost child_chunks = node_chunks(nodes[i as int]);
                proof {
                    assert(nodes.take(i + 1) =~= nodes.take(i as int).push(nodes[i as int]));
                    lemma_nodes_chunks_push(nodes.take(i as int), nodes[i as int]);
                    lemma_nodes_chunks_take(nodes, i + 1);
                    lemma_spans_sum_concat(before, child_chunks);
                }
                let (found, at, left) = locate(&children[i], Ghost((height - 1) as nat), rest);
                if found {
                    proof {
                        let whole = nodes_chunks(nodes);
                        let at_all = before.len() + at;
                        let head = before + child_chunks;
                        assert(nodes_chunks(nodes.take(i + 1)) == head);
                        assert(head.take(at_all) =~= before + child_chunks.take(at as int));
                        lemma_spans_sum_concat(before, child_chunks.take(at as int));
                        lemma_nodes_chunks_prefix(nodes, i + 1);
                        assert(whole == head + nodes_chunks(nodes.skip(i + 1)));
                        assert(whole.take(at_all) =~= head.take(at_all));
                        assert(whole[at_all] == head[at_all]);
                        assert(head[at_all] == child_chunks[at as int]);
                        assert(node_chunks(*node) == whole);
                        assert(locates(whole, site as int, at_all, left as int));
                    }
                    return (true, index + at, left);
                }
                index = index + at;
                rest = left;
                i = i + 1;
            }
            assert(nodes.take(i as int) =~= nodes);
            assert(node_chunks(*node) == nodes_chunks(nodes));
            (false, index, rest)
        },
    }
}

/// The chunks of a prefix of nodes are no more than those of all of them.
proof fn lemma_nodes_chunks_take(nodes: Seq<TreeNode>, k: int)
    requires
        0 <= k <= nodes.len(),
    ensures
        nodes_chunks(nodes.take(k)).len() <= nodes_chunks(nodes).len(),
    decreases nodes.len() - k,
{
    if k < nodes.len() {
        lemma_nodes_chunks_take(nodes, k + 1);
        assert(nodes.take(k + 1) =~= nodes.take(k).push(nodes[k]));
        lemma_nodes_chunks_push(nodes.take(k), nodes[k]);
    } else {
        assert(nodes.take(k) =~= nodes);
    }
}

/// The chunks of a prefix of nodes start the chunks of all of them.
proof fn lemma_nodes_chunks_prefix(nodes: Seq<TreeNode>, k: int)
    requires
        0 <= k <= nodes.len(),
    ensures
        nodes_chunks(nodes) =~= nodes_chunks(nodes.take(k)) + nodes_chunks(nodes.skip(k)),
    decreases nodes.len(),
{
    if k == nodes.len() {
        assert(nodes.take(k) =~= nodes);
        assert(nodes.skip(k) =~= Seq::<TreeNode>::empty());
    } else {
        let last = nodes.last();
        let init = nodes.drop_last();
        lemma_nodes_chunks_prefix(init, k);
        assert(init.take(k) =~= nodes.take(k));
        assert(nodes.skip(k) =~= init.skip(k).push(last));
        lemma_nodes_chunks_push(init.skip(k), last);
    }
}

impl TokenTree {
    /// Finds the chunk that the character `site` falls into: its index and
    /// the offset of `site` within it, or `None` when `site` is at or past
    /// the end of the code.
    pub fn lookup(&self, site: usize) -> (result: Option<(usize, usize)>)
        requires
            self.wf(),
        ensures
            result matches Some((index, offset)) ==> locates(self.chunks(), site as int, index as int, offset as int),
            result is None ==> spans_sum(self.chunks()) <= site,
    {
        match &self.root {
            None => None,
            Some(node) => {
                let (found, index, offset) = locate(node, Ghost(self.height as nat), site);
                if found {
                    Some((index, offset))
                } else {
                    None
                }
            },
        }
    }
}

/// The chunks of two sequences of nodes one after another are the chunks
/// of the sequences' concatenation.
proof fn lemma_nodes_chunks_concat(a: Seq<TreeNode>, b: Seq<TreeNode>)
    ensures
        nodes_chunks(a + b) == nodes_chunks(a) + nodes_chunks(b),
    decreases b.len(),
{
    if b.len() == 0 {
        assert(a + b =~= a);
        assert(nodes_chunks(b) =~= Seq::<Chunk>::empty());
        assert(nodes_chunks(a) + nodes_chunks(b) =~= nodes_chunks(a));
    } else {
        lemma_nodes_chunks_concat(a, b.drop_last());
        assert((a + b).drop_last() =~= a + b.drop_last());
        assert((a + b).last() == b.last());
        assert(nodes_chunks(a) + nodes_chunks(b.drop_last()) + node_chunks(b.last()) =~= nodes_chunks(a)
            + (nodes_chunks(b.drop_last()) + node_chunks(b.last())));
    }
}

/// True when `node` has height `height`, holds at least `low` and at most
/// as many children as its layer allows, and every child fits.
pub open spec fn holds(node: TreeNode, height: nat, low: nat) -> bool {
    match node {
        TreeNode::Page(chunks) => height == 1 && low <= chunks@.len() <= 2 * TREE_PAGE_B - 1,
        TreeNode::Branch(children) => height > 1 && low <= children@.len() <= 2 * BRANCH_B - 1
            && forall|i: int| 0 <= i < children@.len() ==> fits(#[trigger] children@[i], (height - 1) as nat, TREE_PAGE_B as nat),
    }
}

/// The branching factor of the layer at `height`.
pub open spec fn layer_b(height: nat) -> nat {
    if height == 1 {
        TREE_PAGE_B as nat
    } else {
        BRANCH_B as nat
    }
}

/// A node fits exactly when it holds at least its layer's branching factor
/// of children; a root fits exactly when it holds at least one chunk or two
/// nodes.
proof fn lemma_holds(node: TreeNode, height: nat)
    ensures
        fits(node, height, TREE_PAGE_B as nat) <==> holds(node, height, layer_b(height)),
        root_fits(node, height, TREE_PAGE_B as nat) <==> holds(node, height, if height == 1 { 1 } else { 2 }),
{
}

/// The chunks of an optional second node.
pub open spec fn option_chunks(node: Option<TreeNode>) -> Seq<Chunk> {
    match node {
        Some(node) => node_chunks(node),
        None => Seq::empty(),
    }
}

/// Moves items between `left` and `right`, keeping their order, until each
/// holds at least `b` of them.
fn balance_pair<T>(left: &mut Vec<T>, right: &mut Vec<T>, b: usize)
    requires
        b >= 1,
        old(left)@.len() + old(right)@.len() >= 2 * b,
        old(left)@.len() <= 2 * b - 1,
        old(right)@.len() <= 2 * b - 1,
    ensures
        final(left)@ + final(right)@ == old(left)@ + old(right)@,
        b <= final(left)@.len() <= 2 * b - 1,
        b <= final(right)@.len() <= 2 * b - 1,
{
    let ghost all = left@ + right@;
    let ghost total = all.len();
    while left.len() < b
        invariant
            left@ + right@ == all,
            total == all.len(),
            total >= 2 * b,
            b >= 1,
            left@.len() <= 2 * b - 1,
            right@.len() <= 2 * b - 1,
            left@.len() < b ==> right@.len() > b,
        decreases b - left@.len(),
    {
        let ghost before_left = left@;
        let ghost before_right = right@;
        let item = right.remove(0);
        left.push(item);
        assert(left@ + right@ =~= before_left + before_right);
    }
    while right.len() < b
        invariant
            left@ + right@ == all,
            total == all.len(),
            total >= 2 * b,
            b >= 1,
            left@.len() >= b,
            right@.len() <= 2 * b - 1,
            left@.len() <= 2 * b - 1,
            right@.len() < b ==> left@.len() > b,
        decreases b - right@.len(),
    {
        let ghost before_left = left@;
        let ghost before_right = right@;
        let item = left.pop().unwrap();
        right.insert(0, item);
        assert(left@ + right@ =~= before_left + before_right);
    }
}

/// Joins two nodes of the same height side by side: one node with the
/// children of both when they fit into one, otherwise two nodes, each with
/// at least its layer's branching factor of children.
#[verifier::spinoff_prover]
#[verifier::rlimit(60)]
fn join_nodes(left: TreeNode, right: TreeNode, Ghost(height): Ghost<nat>) -> (result: (TreeNode, Option<TreeNode>))
    requires
        balanced(left, height),
        balanced(right, height),
        holds(left, height, 1),
        holds(right, height, 1),
    ensures
        node_chunks(result.0) + option_chunks(result.1) == node_chunks(left) + node_chunks(right),
        balanced(result.0, height),
        width(left) + width(right) <= 2 * layer_b(height) - 1 ==> {
            &&& result.1 is None
            &&& width(result.0) == width(left) + width(right)
            &&& holds(result.0, height, 1)
        },
        width(left) + width(right) > 2 * layer_b(height) - 1 ==> {
            &&& result.1 matches Some(second) && balanced(second, height) && fits(second, height, TREE_PAGE_B as nat)
            &&& fits(result.0, height, TREE_PAGE_B as nat)
        },
{
    match (left, right) {
        (TreeNode::Page(mut a), TreeNode::Page(mut b)) => {
            let ghost both = a@ + b@;
            if a.len() + b.len() <= 2 * TREE_PAGE_B - 1 {
                a.append(&mut b);
                (TreeNode::Page(a), None)
            } else {
                balance_pair(&mut a, &mut b, TREE_PAGE_B);
                let first = TreeNode::Page(a);
                let second = TreeNode::Page(b);
                assert(node_chunks(first) + option_chunks(Some(second)) == both);
                (first, Some(second))
            }
        },
        (TreeNode::Branch(mut a), TreeNode::Branch(mut b)) => {
            let ghost old_a = a@;
            let ghost old_b = b@;
            proof {
                lemma_nodes_chunks_concat(old_a, old_b);
            }
            if a.len() + b.len() <= 2 * BRANCH_B - 1 {
                a.append(&mut b);
                assert(a@ =~= old_a + old_b);
                let node = TreeNode::Branch(a);
                proof {
                    assert forall|i: int| 0 <= i < a@.len() implies balanced(#[trigger] a@[i], (height - 1) as nat)
                        && fits(a@[i], (height - 1) as nat, TREE_PAGE_B as nat) by {
                        if i < old_a.len() {
                            assert(a@[i] == old_a[i]);
                        } else {
                            assert(a@[i] == old_b[i - old_a.len()]);
                        }
                    }
                    assert(option_chunks(None) =~= Seq::<Chunk>::empty());
                    assert(node_chunks(node) + option_chunks(None) =~= node_chunks(node));
                }
                (node, None)
            } else {
                balance_pair(&mut a, &mut b, BRANCH_B);
                proof {
                    lemma_nodes_chunks_concat(a@, b@);
                    assert forall|i: int| 0 <= i < a@.len() implies balanced(#[trigger] a@[i], (height - 1) as nat)
                        && fits(a@[i], (height - 1) as nat, TREE_PAGE_B as nat) by {
                        assert((a@ + b@)[i] == a@[i]);
                        if i < old_a.len() {
                            assert((old_a + old_b)[i] == old_a[i]);
                        } else {
                            assert((old_a + old_b)[i] == old_b[i - old_a.len()]);
                        }
                    }
                    assert forall|i: int| 0 <= i < b@.len() implies balanced(#[trigger] b@[i], (height - 1) as nat)
                        && fits(b@[i], (height - 1) as nat, TREE_PAGE_B as nat) by {
                        let k = i + a@.len();
                        assert((a@ + b@)[k] == b@[i]);
                        if k < old_a.len() {
                            assert((old_a + old_b)[k] == old_a[k]);
                        } else {
                            assert((old_a + old_b)[k] == old_b[k - old_a.len()]);
                        }
                    }
                }
                let first = TreeNode::Branch(a);
                let second = TreeNode::Branch(b);
                (first, Some(second))
            }
        },
        (a, b) => {
            proof {
                assert(false);
            }
            (a, Some(b))
        },
    }
}

/// The requirement of a node at `height`: to fit, or to fit as a root.
pub open spec fn fits_as(node: TreeNode, height: nat, root: bool) -> bool {
    if root {
        root_fits(node, height, TREE_PAGE_B as nat)
    } else {
        fits(node, height, TREE_PAGE_B as nat)
    }
}

/// Joins `right`, the root of a lower tree, to the right edge of `node`:
/// down the last children to the layer of `right`, where the two are joined
/// side by side, splitting each overflowing branch on the way back up into
/// two of [BRANCH_B] children. Returns the node, and the second half when
/// `node` itself split.
#[verifier::spinoff_prover]
#[verifier::rlimit(60)]
fn append_at(node: TreeNode, height: usize, right: TreeNode, right_height: usize, Ghost(root): Ghost<bool>) -> (result: (TreeNode, Option<TreeNode>))
    requires
        height > right_height >= 1,
        balanced(node, height as nat),
        balanced(right, right_height as nat),
        fits_as(node, height as nat, root),
        root_fits(right, right_height as nat, TREE_PAGE_B as nat),
    ensures
        node_chunks(result.0) + option_chunks(result.1) == node_chunks(node) + node_chunks(right),
        balanced(result.0, height as nat),
        result.1 is None ==> fits_as(result.0, height as nat, root),
        result.1 matches Some(second) ==> {
            &&& balanced(second, height as nat)
            &&& fits(second, height as nat, TREE_PAGE_B as nat)
            &&& fits(result.0, height as nat, TREE_PAGE_B as nat)
        },
    decreases height,
{
    match node {
        TreeNode::Branch(mut children) => {
            let ghost kids = children@;
            let last = children.pop().unwrap();
            let ghost init = children@;
            proof {
                assert(kids =~= init.push(last));
                lemma_nodes_chunks_push(init, last);
                assert(balanced(kids[kids.len() - 1], (height - 1) as nat));
                assert(fits(kids[kids.len() - 1], (height - 1) as nat, TREE_PAGE_B as nat));
                lemma_holds(last, (height - 1) as nat);
                lemma_holds(right, right_height as nat);
            }
            let (a, b) = if height - 1 == right_height {
                join_nodes(last, right, Ghost(right_height as nat))
            } else {
                append_at(last, height - 1, right, right_height, Ghost(false))
            };
            proof {
                lemma_holds(a, (height - 1) as nat);
            }
            children.push(a);
            proof {
                lemma_nodes_chunks_push(init, a);
            }
            match b {
                Some(second) => {
                    let ghost with_a = children@;
                    children.push(second);
                    proof {
                        lemma_nodes_chunks_push(with_a, second);
                        assert(node_chunks(a) + node_chunks(second) == node_chunks(last) + node_chunks(right));
                        assert(nodes_chunks(children@) =~= nodes_chunks(init) + (node_chunks(a) + node_chunks(second)));
                    }
                },
                None => {
                    proof {
                        assert(node_chunks(a) + option_chunks(None) =~= node_chunks(a));
                    }
                },
            }
            let ghost all = children@;
            proof {
                assert(nodes_chunks(all) == nodes_chunks(kids) + node_chunks(right));
                assert forall|i: int| 0 <= i < all.len() implies balanced(#[trigger] all[i], (height - 1) as nat)
                    && fits(all[i], (height - 1) as nat, TREE_PAGE_B as nat) by {
                    if i < init.len() {
                        assert(all[i] == kids[i]);
                    }
                }
            }
            if children.len() > 2 * BRANCH_B - 1 {
                let tail = children.split_off(BRANCH_B);
                proof {
                    assert(all =~= children@ + tail@);
                    lemma_nodes_chunks_concat(children@, tail@);
                    assert forall|i: int| 0 <= i < tail@.len() implies balanced(#[trigger] tail@[i], (height - 1) as nat)
                        && fits(tail@[i], (height - 1) as nat, TREE_PAGE_B as nat) by {
                        assert(tail@[i] == all[i + BRANCH_B]);
                    }
                    assert forall|i: int| 0 <= i < children@.len() implies balanced(#[trigger] children@[i], (height - 1) as nat)
                        && fits(children@[i], (height - 1) as nat, TREE_PAGE_B as nat) by {
                        assert(children@[i] == all[i]);
                    }
                }
                (TreeNode::Branch(children), Some(TreeNode::Branch(tail)))
            } else {
                let result = TreeNode::Branch(children);
                proof {
                    assert(option_chunks(None) =~= Seq::<Chunk>::empty());
                    assert(node_chunks(result) + option_chunks(None) =~= node_chunks(result));
                }
                (result, None)
            }
        },
        TreeNode::Page(chunks) => {
            proof {
                assert(false);
            }
            (TreeNode::Page(chunks), None)
        },
    }
}

/// Joins `left`, the root of a lower tree, to the left edge of `node`:
/// down the first children to the layer of `left`, where the two are joined
/// side by side, splitting each overflowing branch on the way back up into
/// two of [BRANCH_B] children. Returns the node, and the second half when
/// `node` itself split.
#[verifier::spinoff_prover]
#[verifier::rlimit(60)]
fn prepend_at(left: TreeNode, left_height: usize, node: TreeNode, height: usize, Ghost(root): Ghost<bool>) -> (result: (TreeNode, Option<TreeNode>))
    requires
        height > left_height >= 1,
        balanced(node, height as nat),
        balanced(left, left_height as nat),
        fits_as(node, height as nat, root),
        root_fits(left, left_height as nat, TREE_PAGE_B as nat),
    ensures
        node_chunks(result.0) + option_chunks(result.1) == node_chunks(left) + node_chunks(node),
        balanced(result.0, height as nat),
        result.1 is None ==> fits_as(result.0, height as nat, root),
        result.1 matches Some(second) ==> {
            &&& balanced(second, height as nat)
            &&& fits(second, height as nat, TREE_PAGE_B as nat)
            &&& fits(result.0, height as nat, TREE_PAGE_B as nat)
        },
    decreases height,
{
    match node {
        TreeNode::Branch(mut children) => {
            let ghost kids = children@;
            let first = children.remove(0);
            let ghost rest = children@;
            proof {
                assert(kids =~= seq![first] + rest);
                lemma_nodes_chunks_concat(seq![first], rest);
                lemma_nodes_chunks_push(Seq::<TreeNode>::empty(), first);
                assert(Seq::<TreeNode>::empty().push(first) =~= seq![first]);
                assert(nodes_chunks(Seq::<TreeNode>::empty()) =~= Seq::<Chunk>::empty());
                assert(nodes_chunks(seq![first]) =~= node_chunks(first));
                assert(balanced(kids[0], (height - 1) as nat));
                assert(fits(kids[0], (height - 1) as nat, TREE_PAGE_B as nat));
                lemma_holds(first, (height - 1) as nat);
                lemma_holds(left, left_height as nat);
            }
            let (a, b) = if height - 1 == left_height {
                join_nodes(left, first, Ghost(left_height as nat))
            } else {
                prepend_at(left, left_height, first, height - 1, Ghost(false))
            };
            proof {
                lemma_holds(a, (height - 1) as nat);
            }
            let ghost gb = b;
            let ghost front: Seq<TreeNode> = if gb is Some {
                seq![a, gb->0]
            } else {
                seq![a]
            };
            match b {
                Some(second) => {
                    children.insert(0, second);
                },
                None => {},
            }
            children.insert(0, a);
            let ghost all = children@;
            proof {
                assert(all =~= front + rest);
                lemma_nodes_chunks_concat(front, rest);
                if gb is Some {
                    let second = gb->0;
                    {
                        lemma_nodes_chunks_push(seq![a], second);
                        assert(seq![a].push(second) =~= front);
                        lemma_nodes_chunks_push(Seq::<TreeNode>::empty(), a);
                        assert(Seq::<TreeNode>::empty().push(a) =~= seq![a]);
                        assert(nodes_chunks(Seq::<TreeNode>::empty()) =~= Seq::<Chunk>::empty());
                        assert(nodes_chunks(seq![a]) =~= node_chunks(a));
                        assert(nodes_chunks(front) =~= node_chunks(a) + option_chunks(gb));
                    }
                } else {
                    lemma_nodes_chunks_push(Seq::<TreeNode>::empty(), a);
                    assert(Seq::<TreeNode>::empty().push(a) =~= seq![a]);
                    assert(nodes_chunks(Seq::<TreeNode>::empty()) =~= Seq::<Chunk>::empty());
                    assert(nodes_chunks(front) =~= node_chunks(a) + option_chunks(gb));
                }
                assert(nodes_chunks(all) =~= node_chunks(left) + nodes_chunks(kids));
                assert forall|i: int| 0 <= i < all.len() implies balanced(#[trigger] all[i], (height - 1) as nat)
                    && fits(all[i], (height - 1) as nat, TREE_PAGE_B as nat) by {
                    if i >= front.len() {
                        assert(all[i] == rest[i - front.len()]);
                        assert(rest[i - front.len()] == kids[i - front.len() + 1]);
                    } else if i == 0 {
                        assert(all[i] == a);
                    } else {
                        assert(all[i] == front[1]);
                    }
                }
            }
            if children.len() > 2 * BRANCH_B - 1 {
                let tail = children.split_off(BRANCH_B);
                proof {
                    assert(all =~= children@ + tail@);
                    lemma_nodes_chunks_concat(children@, tail@);
                    assert forall|i: int| 0 <= i < tail@.len() implies balanced(#[trigger] tail@[i], (height - 1) as nat)
                        && fits(tail@[i], (height - 1) as nat, TREE_PAGE_B as nat) by {
                        assert(tail@[i] == all[i + BRANCH_B]);
                    }
                    assert forall|i: int| 0 <= i < children@.len() implies balanced(#[trigger] children@[i], (height - 1) as nat)
                        && fits(children@[i], (height - 1) as nat, TREE_PAGE_B as nat) by {
                        assert(children@[i] == all[i]);
                    }
                }
                (TreeNode::Branch(children), Some(TreeNode::Branch(tail)))
            } else {
                let result = TreeNode::Branch(children);
                proof {
                    assert(option_chunks(None) =~= Seq::<Chunk>::empty());
                    assert(node_chunks(result) + option_chunks(None) =~= node_chunks(result));
                }
                (result, None)
            }
        },
        TreeNode::Page(chunks) => {
            proof {
                assert(false);
            }
            (TreeNode::Page(chunks), None)
        },
    }
}

/// Chunks that each cover a character still do when put one after another.
proof fn lemma_spans_positive_concat(a: Seq<Chunk>, b: Seq<Chunk>)
    requires
        spans_positive(a),
        spans_positive(b),
    ensures
        spans_positive(a + b),
{
    assert forall|i: int| 0 <= i < (a + b).len() implies #[trigger] (a + b)[i].span > 0 by {
        if i < a.len() {
            assert((a + b)[i] == a[i]);
        } else {
            assert((a + b)[i] == b[i - a.len()]);
        }
    }
}

/// A branch over two nodes holds the chunks of both.
proof fn lemma_pair_chunks(a: TreeNode, b: TreeNode)
    ensures
        nodes_chunks(seq![a, b]) == node_chunks(a) + node_chunks(b),
{
    lemma_nodes_chunks_push(Seq::<TreeNode>::empty(), a);
    assert(Seq::<TreeNode>::empty().push(a) =~= seq![a]);
    lemma_nodes_chunks_push(seq![a], b);
    assert(seq![a].push(b) =~= seq![a, b]);
    assert(nodes_chunks(Seq::<TreeNode>::empty()) =~= Seq::<Chunk>::empty());
    assert(nodes_chunks(seq![a]) =~= node_chunks(a));
}

/// A tree of `height` layers over `node`, or over a new root above `node`
/// and `second` when there are two.
fn grow(node: TreeNode, second: Option<TreeNode>, height: usize) -> (result: TokenTree)
    requires
        height >= 1,
        height < usize::MAX,
        balanced(node, height as nat),
        second is None ==> root_fits(node, height as nat, TREE_PAGE_B as nat),
        second matches Some(other) ==> {
            &&& balanced(other, height as nat)
            &&& fits(other, height as nat, TREE_PAGE_B as nat)
            &&& fits(node, height as nat, TREE_PAGE_B as nat)
        },
        spans_positive(node_chunks(node) + option_chunks(second)),
        node_chunks(node).len() + option_chunks(second).len() < usize::MAX,
        height + (if second is Some { 1int } else { 0int }) <= node_chunks(node).len() + option_chunks(second).len(),
    ensures
        result.wf(),
        result.chunks() == node_chunks(node) + option_chunks(second),
{
    match second {
        None => {
            let result = TokenTree { root: Some(node), height };
            assert(node_chunks(node) + option_chunks(None) =~= node_chunks(node));
            result
        },
        Some(other) => {
            let mut children: Vec<TreeNode> = Vec::new();
            children.push(node);
            children.push(other);
            let ghost pair = children@;
            assert(pair =~= seq![node, other]);
            let root = TreeNode::Branch(children);
            proof {
                lemma_pair_chunks(node, other);
                assert(balanced(pair[0], height as nat));
                assert(balanced(pair[1], height as nat));
                assert(balanced(root, (height + 1) as nat));
                assert(root_fits(root, (height + 1) as nat, TREE_PAGE_B as nat));
            }
            TokenTree { root: Some(root), height: height + 1 }
        },
    }
}

impl TokenTree {
    /// Appends the chunks of `other` after the chunks of this tree, joining
    /// the two trees in place: roots of the same height side by side, or
    /// the lower root into the edge of the higher tree at its own layer,
    /// splitting the nodes that overflow on the way up.
    pub fn join(&mut self, other: TokenTree)
        requires
            old(self).wf(),
            other.wf(),
            old(self).chunks().len() + other.chunks().len() < usize::MAX,
        ensures
            final(self).wf(),
            final(self).chunks() == old(self).chunks() + other.chunks(),
    {
        let ghost left_chunks = self.chunks();
        let ghost right_chunks = other.chunks();
        proof {
            lemma_spans_positive_concat(left_chunks, right_chunks);
        }
        let TokenTree { root: other_root, height: other_height } = other;
        let right = match other_root {
            None => {
                assert(left_chunks + right_chunks =~= left_chunks);
                return;
            },
            Some(right) => right,
        };
        let mut tree = TokenTree::new();
        std::mem::swap(self, &mut tree);
        let TokenTree { root: self_root, height } = tree;
        let left = match self_root {
            None => {
                assert(left_chunks + right_chunks =~= right_chunks);
                *self = TokenTree { root: Some(right), height: other_height };
                return;
            },
            Some(left) => left,
        };
        proof {
            assert(node_chunks(left) == left_chunks);
            assert(node_chunks(right) == right_chunks);
            assert((left_chunks + right_chunks).len() == left_chunks.len() + right_chunks.len());
            lemma_balanced_nonempty(left, height as nat);
            lemma_balanced_nonempty(right, other_height as nat);
        }
        if height == other_height {
            proof {
                lemma_holds(left, height as nat);
                lemma_holds(right, height as nat);
            }
            let (a, b) = join_nodes(left, right, Ghost(height as nat));
            proof {
                lemma_holds(a, height as nat);
            }
            assert((node_chunks(a) + option_chunks(b)).len() == node_chunks(a).len() + option_chunks(b).len());
            *self = grow(a, b, height);
        } else if height > other_height {
            let (a, b) = append_at(left, height, right, other_height, Ghost(true));
            assert((node_chunks(a) + option_chunks(b)).len() == node_chunks(a).len() + option_chunks(b).len());
            *self = grow(a, b, height);
        } else {
            let (a, b) = prepend_at(left, height, right, other_height, Ghost(true));
            assert((node_chunks(a) + option_chunks(b)).len() == node_chunks(a).len() + option_chunks(b).len());
            *self = grow(a, b, other_height);
        }
    }
}

/// A node that fits at `height` holds at least `height` chunks.
proof fn lemma_fits_len(node: TreeNode, height: nat)
    requires
        fits(node, height, TREE_PAGE_B as nat),
    ensures
        node_chunks(node).len() >= height,
    decreases node,
{
    match node {
        TreeNode::Page(chunks) => {},
        TreeNode::Branch(children) => {
            let nodes = children@;
            let below = (height - 1) as nat;
            assert(fits(nodes[0], below, TREE_PAGE_B as nat));
            assert(fits(nodes[1], below, TREE_PAGE_B as nat));
            lemma_fits_len(nodes[0], below);
            lemma_fits_len(nodes[1], below);
            lemma_pair_len(nodes);
        },
    }
}

/// The chunks of nodes are at least those of the first two of them.
proof fn lemma_pair_len(nodes: Seq<TreeNode>)
    requires
        nodes.len() >= 2,
    ensures
        nodes_chunks(nodes).len() >= node_chunks(nodes[0]).len() + node_chunks(nodes[1]).len(),
{
    let front = seq![nodes[0], nodes[1]];
    let rest = nodes.skip(2);
    assert(nodes =~= front + rest);
    lemma_nodes_chunks_concat(front, rest);
    lemma_pair_chunks(nodes[0], nodes[1]);
}

/// Chunks that each cover a character still do in any part of them.
proof fn lemma_spans_positive_subrange(chunks: Seq<Chunk>, from: int, to: int)
    requires
        spans_positive(chunks),
        0 <= from <= to <= chunks.len(),
    ensures
        spans_positive(chunks.subrange(from, to)),
{
    assert forall|i: int| 0 <= i < to - from implies #[trigger] chunks.subrange(from, to)[i].span > 0 by {
        assert(chunks.subrange(from, to)[i] == chunks[from + i]);
    }
}

/// The number of chunks under `node`.
fn node_len(node: &TreeNode, Ghost(height): Ghost<nat>) -> (result: usize)
    requires
        balanced(*node, height),
        node_chunks(*node).len() < usize::MAX,
    ensures
        result == node_chunks(*node).len(),
    decreases height,
{
    match node {
        TreeNode::Page(chunks) => chunks.len(),
        TreeNode::Branch(children) => {
            let ghost nodes = children@;
            let mut i: usize = 0;
            let mut total: usize = 0;
            assert(nodes.take(0) =~= Seq::<TreeNode>::empty());
            proof {
                lemma_nodes_chunks_take(nodes, nodes.len() as int);
            }
            while i < children.len()
                invariant
                    nodes == children@,
                    node_chunks(*node) == nodes_chunks(nodes),
                    height > 1,
                    forall|j: int| 0 <= j < nodes.len() ==> balanced(#[trigger] nodes[j], (height - 1) as nat),
                    nodes_chunks(nodes).len() < usize::MAX,
                    i <= nodes.len(),
                    total == nodes_chunks(nodes.take(i as int)).len(),
                decreases nodes.len() - i,
            {
                proof {
                    assert(nodes.take(i + 1) =~= nodes.take(i as int).push(nodes[i as int]));
                    lemma_nodes_chunks_push(nodes.take(i as int), nodes[i as int]);
                    lemma_nodes_chunks_take(nodes, i + 1);
                }
                let count = node_len(&children[i], Ghost((height - 1) as nat));
                total = total + count;
                i = i + 1;
            }
            assert(nodes.take(i as int) =~= nodes);
            total
        },
    }
}

/// A tree over nodes of one layer: the empty tree for none, the node
/// itself for one, and a branch over them for more.
fn tree_of(nodes: Vec<TreeNode>, height: usize) -> (result: TokenTree)
    requires
        height >= 1,
        height < usize::MAX,
        nodes@.len() <= 2 * BRANCH_B - 1,
        forall|j: int| 0 <= j < nodes@.len() ==> balanced(#[trigger] nodes@[j], height as nat),
        forall|j: int| 0 <= j < nodes@.len() ==> fits(#[trigger] nodes@[j], height as nat, TREE_PAGE_B as nat),
        spans_positive(nodes_chunks(nodes@)),
        nodes_chunks(nodes@).len() < usize::MAX,
    ensures
        result.wf(),
        result.chunks() == nodes_chunks(nodes@),
{
    let ghost all = nodes@;
    if nodes.len() == 0 {
        assert(nodes_chunks(all) =~= Seq::<Chunk>::empty());
        TokenTree::new()
    } else if nodes.len() == 1 {
        let mut nodes = nodes;
        let node = nodes.pop().unwrap();
        proof {
            assert(all =~= Seq::<TreeNode>::empty().push(node));
            lemma_nodes_chunks_push(Seq::<TreeNode>::empty(), node);
            assert(nodes_chunks(Seq::<TreeNode>::empty()) =~= Seq::<Chunk>::empty());
            assert(nodes_chunks(all) =~= node_chunks(node));
            assert(fits(all[0], height as nat, TREE_PAGE_B as nat));
            lemma_holds(node, height as nat);
            lemma_fits_len(node, height as nat);
        }
        TokenTree { root: Some(node), height }
    } else {
        proof {
            assert(fits(all[0], height as nat, TREE_PAGE_B as nat));
            assert(fits(all[1], height as nat, TREE_PAGE_B as nat));
            lemma_fits_len(all[0], height as nat);
            lemma_fits_len(all[1], height as nat);
            lemma_pair_len(all);
        }
        let root = TreeNode::Branch(nodes);
        assert(balanced(root, (height + 1) as nat));
        assert(root_fits(root, (height + 1) as nat, TREE_PAGE_B as nat));
        TokenTree { root: Some(root), height: height + 1 }
    }
}

/// Splits `node` before its chunk at `index` into two trees, reusing the
/// nodes off the path down to that chunk: the nodes left of the path and
/// the left part of the split child are joined into one tree, those right
/// of it into the other.
#[verifier::spinoff_prover]
#[verifier::rlimit(60)]
fn split_node(node: TreeNode, height: usize, index: usize, Ghost(root): Ghost<bool>) -> (result: (TokenTree, TokenTree))
    requires
        height >= 1,
        balanced(node, height as nat),
        fits_as(node, height as nat, root),
        index <= node_chunks(node).len(),
        spans_positive(node_chunks(node)),
        node_chunks(node).len() < usize::MAX,
    ensures
        result.0.wf(),
        result.1.wf(),
        result.0.chunks() == node_chunks(node).take(index as int),
        result.1.chunks() == node_chunks(node).skip(index as int),
    decreases height,
{
    let ghost all = node_chunks(node);
    proof {
        lemma_spans_positive_subrange(all, 0, index as int);
        lemma_spans_positive_subrange(all, index as int, all.len() as int);
        assert(all.take(index as int) =~= all.subrange(0, index as int));
        assert(all.skip(index as int) =~= all.subrange(index as int, all.len() as int));
    }
    match node {
        TreeNode::Page(mut chunks) => {
            let tail = chunks.split_off(index);
            assert(chunks@ =~= all.take(index as int));
            assert(tail@ =~= all.skip(index as int));
            let left = if chunks.len() > 0 {
                TokenTree { root: Some(TreeNode::Page(chunks)), height: 1 }
            } else {
                TokenTree::new()
            };
            let right = if tail.len() > 0 {
                TokenTree { root: Some(TreeNode::Page(tail)), height: 1 }
            } else {
                TokenTree::new()
            };
            assert(left.chunks() =~= all.take(index as int));
            assert(right.chunks() =~= all.skip(index as int));
            (left, right)
        },
        TreeNode::Branch(mut children) => {
            let ghost nodes = children@;
            let ghost below = (height - 1) as nat;
            let mut k: usize = 0;
            let mut acc: usize = 0;
            let mut searching = true;
            assert(nodes.take(0) =~= Seq::<TreeNode>::empty());
            proof {
                lemma_nodes_chunks_take(nodes, nodes.len() as int);
            }
            while searching && k + 1 < children.len()
                invariant
                    nodes == children@,
                    all == nodes_chunks(nodes),
                    height > 1,
                    2 <= nodes.len() <= 2 * BRANCH_B - 1,
                    forall|j: int| 0 <= j < nodes.len() ==> balanced(#[trigger] nodes[j], below),
                    below == height - 1,
                    all.len() < usize::MAX,
                    k < nodes.len(),
                    acc == nodes_chunks(nodes.take(k as int)).len(),
                    acc <= index,
                    !searching ==> index < acc + node_chunks(nodes[k as int]).len(),
                decreases nodes.len() - k + (if searching { 1int } else { 0int }),
            {
                proof {
                    assert(nodes.take(k + 1) =~= nodes.take(k as int).push(nodes[k as int]));
                    lemma_nodes_chunks_push(nodes.take(k as int), nodes[k as int]);
                    lemma_nodes_chunks_take(nodes, k + 1);
                }
                let count = node_len(&children[k], Ghost(below));
                if index < acc + count {
                    searching = false;
                } else {
                    acc = acc + count;
                    k = k + 1;
                }
            }
            let right_nodes = children.split_off(k + 1);
            let child = children.pop().unwrap();
            let left_nodes = children;
            let ghost before = nodes.take(k as int);
            let ghost after = nodes.skip(k + 1);
            let ghost child_chunks = node_chunks(child);
            proof {
                assert(left_nodes@ =~= before);
                assert(right_nodes@ =~= after);
                assert(child == nodes[k as int]);
                assert(nodes =~= before.push(child) + after);
                lemma_nodes_chunks_concat(before.push(child), after);
                lemma_nodes_chunks_push(before, child);
                assert(all =~= nodes_chunks(before) + child_chunks + nodes_chunks(after));
                assert(index - acc <= child_chunks.len());
                let l = nodes_chunks(before).len() as int;
                let c = child_chunks.len() as int;
                lemma_spans_positive_subrange(all, 0, l);
                assert(all.subrange(0, l) =~= nodes_chunks(before));
                lemma_spans_positive_subrange(all, l, l + c);
                assert(all.subrange(l, l + c) =~= child_chunks);
                lemma_spans_positive_subrange(all, l + c, all.len() as int);
                assert(all.subrange(l + c, all.len() as int) =~= nodes_chunks(after));
                assert(fits(nodes[k as int], below, TREE_PAGE_B as nat));
                assert forall|j: int| 0 <= j < left_nodes@.len() implies balanced(#[trigger] left_nodes@[j], below)
                    && fits(left_nodes@[j], below, TREE_PAGE_B as nat) by {
                    assert(left_nodes@[j] == nodes[j]);
                }
                assert forall|j: int| 0 <= j < right_nodes@.len() implies balanced(#[trigger] right_nodes@[j], below)
                    && fits(right_nodes@[j], below, TREE_PAGE_B as nat) by {
                    assert(right_nodes@[j] == nodes[j + k + 1]);
                }
            }
            let (inner_left, inner_right) = split_node(child, height - 1, index - acc, Ghost(false));
            let mut left = tree_of(left_nodes, height - 1);
            let ghost left_before = left.chunks();
            left.join(inner_left);
            let mut right = inner_right;
            let ghost right_before = right.chunks();
            let right_tail = tree_of(right_nodes, height - 1);
            right.join(right_tail);
            proof {
                assert(all.take(index as int) =~= nodes_chunks(before) + child_chunks.take(index - acc));
                assert(all.skip(index as int) =~= child_chunks.skip(index - acc) + nodes_chunks(after));
            }
            (left, right)
        },
    }
}

impl TokenTree {
    /// Splits the tree before the chunk at `index`, in place: this tree
    /// keeps the chunks before it, and the returned tree holds the rest.
    pub fn split(&mut self, index: usize) -> (right: TokenTree)
        requires
            old(self).wf(),
            index <= old(self).chunks().len(),
        ensures
            final(self).wf(),
            right.wf(),
            final(self).chunks() == old(self).chunks().subrange(0, index as int),
            right.chunks() == old(self).chunks().subrange(index as int, old(self).chunks().len() as int),
            final(self).chunks() + right.chunks() == old(self).chunks(),
    {
        let ghost all = self.chunks();
        let mut tree = TokenTree::new();
        std::mem::swap(self, &mut tree);
        let TokenTree { root, height } = tree;
        match root {
            None => {
                assert(all.subrange(0, 0) =~= all);
                assert(all + all =~= all);
                TokenTree::new()
            },
            Some(node) => {
                let (left, right) = split_node(node, height, index, Ghost(true));
                *self = left;
                assert(self.chunks() =~= all.subrange(0, index as int));
                assert(right.chunks() =~= all.subrange(index as int, all.len() as int));
                assert(self.chunks() + right.chunks() =~= all);
                right
            },
        }
    }
}

/// The text of the chunks: their strings one after another.
pub open spec fn chunks_text(chunks: Seq<Chunk>) -> Seq<char>
    decreases chunks.len(),
{
    if chunks.len() == 0 {
        Seq::empty()
    } else {
        chunks_text(chunks.drop_last()) + chunks.last().string@
    }
}

/// True when `chunks` cut `text` into tokens: each chunk covers the
/// characters of its string, at least one, and their strings make up
/// `text`.
pub open spec fn is_chunking(chunks: Seq<Chunk>, text: Seq<char>) -> bool {
    &&& forall|i: int| 0 <= i < chunks.len() ==> #[trigger] chunks[i].span == chunks[i].string@.len()
    &&& spans_positive(chunks)
    &&& chunks_text(chunks) == text
}

/// True when two chunks hold the same token rule, span and text.
pub open spec fn same_chunk(a: Chunk, b: Chunk) -> bool {
    a.token == b.token && a.span == b.span && a.string@ == b.string@
}

/// The text of two runs of chunks one after another.
pub proof fn lemma_chunks_text_concat(a: Seq<Chunk>, b: Seq<Chunk>)
    ensures
        chunks_text(a + b) == chunks_text(a) + chunks_text(b),
    decreases b.len(),
{
    if b.len() == 0 {
        assert(a + b =~= a);
        assert(chunks_text(a) + chunks_text(b) =~= chunks_text(a));
    } else {
        lemma_chunks_text_concat(a, b.drop_last());
        assert((a + b).drop_last() =~= a + b.drop_last());
        assert((a + b).last() == b.last());
        assert(chunks_text(a) + chunks_text(b.drop_last()) + b.last().string@ =~= chunks_text(a)
            + (chunks_text(b.drop_last()) + b.last().string@));
    }
}

/// Chunks that cover their strings cover as many characters as their text
/// holds, and there are no more of them than characters.
pub proof fn lemma_chunks_text_len(chunks: Seq<Chunk>)
    requires
        forall|i: int| 0 <= i < chunks.len() ==> #[trigger] chunks[i].span == chunks[i].string@.len(),
        spans_positive(chunks),
    ensures
        spans_sum(chunks) == chunks_text(chunks).len(),
        chunks.len() <= chunks_text(chunks).len(),
    decreases chunks.len(),
{
    if chunks.len() > 0 {
        let init = chunks.drop_last();
        assert forall|i: int| 0 <= i < init.len() implies #[trigger] init[i].span == init[i].string@.len() by {
            assert(init[i] == chunks[i]);
        }
        assert forall|i: int| 0 <= i < init.len() implies #[trigger] init[i].span > 0 by {
            assert(init[i] == chunks[i]);
        }
        assert(chunks[chunks.len() - 1].span > 0);
        lemma_chunks_text_len(init);
    }
}

impl TokenTree {
    /// The number of chunks of the tree.
    pub fn len(&self) -> (result: usize)
        requires
            self.wf(),
        ensures
            result == self.chunks().len(),
    {
        match &self.root {
            Some(node) => node_len(node, Ghost(self.height as nat)),
            None => 0,
        }
    }
}

/// Appends the text of the chunks under `node` to `out`.
fn append_text(node: &TreeNode, Ghost(height): Ghost<nat>, out: &mut String)
    requires
        balanced(*node, height),
    ensures
        final(out)@ == old(out)@ + chunks_text(node_chunks(*node)),
    decreases height,
{
    match node {
        TreeNode::Page(chunks) => {
            let ghost start = out@;
            let mut i: usize = 0;
            assert(chunks@.take(0) =~= Seq::<Chunk>::empty());
            assert(out@ =~= start + chunks_text(chunks@.take(0)));
            while i < chunks.len()
                invariant
                    i <= chunks@.len(),
                    out@ == start + chunks_text(chunks@.take(i as int)),
                decreases chunks@.len() - i,
            {
                out.append(chunks[i].string.as_str());
                proof {
                    assert(chunks@.take(i + 1).drop_last() =~= chunks@.take(i as int));
                    assert(chunks@.take(i + 1).last() == chunks@[i as int]);
                }
                i = i + 1;
            }
            assert(chunks@.take(i as int) =~= chunks@);
        },
        TreeNode::Branch(children) => {
            let ghost nodes = children@;
            let ghost start = out@;
            let mut i: usize = 0;
            assert(nodes.take(0) =~= Seq::<TreeNode>::empty());
            assert(out@ =~= start + chunks_text(nodes_chunks(nodes.take(0))));
            while i < children.len()
                invariant
                    nodes == children@,
                    height > 1,
                    forall|j: int| 0 <= j < nodes.len() ==> balanced(#[trigger] nodes[j], (height - 1) as nat),
                    i <= nodes.len(),
                    out@ == start + chunks_text(nodes_chunks(nodes.take(i as int))),
                decreases nodes.len() - i,
            {
                let ghost before = out@;
                append_text(&children[i], Ghost((height - 1) as nat), out);
                proof {
                    assert(nodes.take(i + 1) =~= nodes.take(i as int).push(nodes[i as int]));
                    lemma_nodes_chunks_push(nodes.take(i as int), nodes[i as int]);
                    lemma_chunks_text_concat(nodes_chunks(nodes.take(i as int)), node_chunks(nodes[i as int]));
                    assert(out@ =~= start + chunks_text(nodes_chunks(nodes.take(i + 1))));
                }
                i = i + 1;
            }
            assert(nodes.take(i as int) =~= nodes);
        },
    }
}

impl TokenTree {
    /// The text of the tree's chunks, one after another.
    pub fn text(&self) -> (result: String)
        requires
            self.wf(),
        ensures
            result@ == chunks_text(self.chunks()),
    {
        let mut out = String::new();
        match &self.root {
            Some(node) => {
                append_text(node, Ghost(self.height as nat), &mut out);
                assert(out@ =~= chunks_text(self.chunks()));
            },
            None => {
                assert(out@ =~= chunks_text(self.chunks()));
            },
        }
        out
    }
}

/// The token rules of the chunks, in order.
pub open spec fn rules_of(chunks: Seq<Chunk>) -> Seq<TokenRule> {
    Seq::new(chunks.len(), |i: int| chunks[i].token)
}

/// Appends the token rules of the chunks under `node` to `out`.
fn append_rules(node: &TreeNode, Ghost(height): Ghost<nat>, out: &mut Vec<TokenRule>)
    requires
        balanced(*node, height),
    ensures
        final(out)@ == old(out)@ + rules_of(node_chunks(*node)),
    decreases height,
{
    match node {
        TreeNode::Page(chunks) => {
            let ghost start = out@;
            let mut i: usize = 0;
            assert(out@ =~= start + rules_of(chunks@.take(0)));
            while i < chunks.len()
                invariant
                    i <= chunks@.len(),
                    out@ == start + rules_of(chunks@.take(i as int)),
                decreases chunks@.len() - i,
            {
                out.push(chunks[i].token);
                assert(out@ =~= start + rules_of(chunks@.take(i + 1)));
                i = i + 1;
            }
            assert(chunks@.take(i as int) =~= chunks@);
        },
        TreeNode::Branch(children) => {
            let ghost nodes = children@;
            let ghost start = out@;
            let mut i: usize = 0;
            assert(nodes.take(0) =~= Seq::<TreeNode>::empty());
            assert(out@ =~= start + rules_of(nodes_chunks(nodes.take(0))));
            while i < children.len()
                invariant
                    nodes == children@,
                    height > 1,
                    forall|j: int| 0 <= j < nodes.len() ==> balanced(#[trigger] nodes[j], (height - 1) as nat),
                    i <= nodes.len(),
                    out@ == start + rules_of(nodes_chunks(nodes.take(i as int))),
                decreases nodes.len() - i,
            {
                append_rules(&children[i], Ghost((height - 1) as nat), out);
                proof {
                    let a = nodes_chunks(nodes.take(i as int));
                    let b = node_chunks(nodes[i as int]);
                    assert(nodes.take(i + 1) =~= nodes.take(i as int).push(nodes[i as int]));
                    lemma_nodes_chunks_push(nodes.take(i as int), nodes[i as int]);
                    assert(rules_of(a + b) =~= rules_of(a) + rules_of(b));
                    assert(out@ =~= start + rules_of(nodes_chunks(nodes.take(i + 1))));
                }
                i = i + 1;
            }
            assert(nodes.take(i as int) =~= nodes);
        },
    }
}

impl TokenTree {
    /// The token rules of the tree's chunks, in order.
    pub fn rules(&self) -> (result: Vec<TokenRule>)
        requires
            self.wf(),
        ensures
            result@ == rules_of(self.chunks()),
    {
        let mut out: Vec<TokenRule> = Vec::new();
        match &self.root {
            Some(node) => {
                append_rules(node, Ghost(self.height as nat), &mut out);
                assert(out@ =~= rules_of(self.chunks()));
            },
            None => {
                assert(out@ =~= rules_of(self.chunks()));
            },
        }
        out
    }
}

/// The chunks of nodes are those before the node at `k`, its own, and those
/// after it.
proof fn lemma_nodes_chunks_at(nodes: Seq<TreeNode>, k: int)
    requires
        0 <= k < nodes.len(),
    ensures
        nodes_chunks(nodes) == nodes_chunks(nodes.take(k)) + node_chunks(nodes[k]) + nodes_chunks(nodes.skip(k + 1)),
{
    assert(nodes =~= nodes.take(k).push(nodes[k]) + nodes.skip(k + 1));
    lemma_nodes_chunks_concat(nodes.take(k).push(nodes[k]), nodes.skip(k + 1));
    lemma_nodes_chunks_push(nodes.take(k), nodes[k]);
}

/// Replaces the chunks `from..to` of a page with `replacement` when the
/// page keeps within its bounds (at least one chunk for a root page, at
/// least [TREE_PAGE_B] for another, at most `2 * TREE_PAGE_B - 1`);
/// otherwise leaves the page as it is and hands `replacement` back.
fn write_in_page(chunks: Vec<Chunk>, from: usize, to: usize, replacement: Vec<Chunk>, root: bool) -> (result: (Vec<Chunk>, Option<Vec<Chunk>>))
    requires
        from <= to <= chunks@.len(),
        chunks@.len() - (to - from) + replacement@.len() < usize::MAX,
    ensures
        result.1 matches Some(back) ==> result.0@ == chunks@ && back@ == replacement@,
        result.1 is None ==> {
            &&& (if root { 1 } else { TREE_PAGE_B as int }) <= result.0@.len() <= 2 * TREE_PAGE_B - 1
            &&& result.0@ == chunks@.take(from as int) + replacement@ + chunks@.skip(to as int)
        },
{
    let w = chunks.len();
    let low: usize = if root {
        1
    } else {
        TREE_PAGE_B
    };
    let count = w - (to - from) + replacement.len();
    if low <= count && count <= 2 * TREE_PAGE_B - 1 {
        let ghost all = chunks@;
        let mut chunks = chunks;
        let mut tail = chunks.split_off(to);
        chunks.truncate(from);
        let mut replacement = replacement;
        let ghost inserted = replacement@;
        chunks.append(&mut replacement);
        chunks.append(&mut tail);
        assert(chunks@ =~= all.take(from as int) + inserted + all.skip(to as int));
        (chunks, None)
    } else {
        (chunks, Some(replacement))
    }
}

/// Replaces the chunks `from..to` under `node` with `replacement` within
/// the one page that holds them, when that page keeps within its bounds;
/// otherwise leaves the node's chunks as they are and hands `replacement`
/// back.
fn write_in_node(node: TreeNode, height: usize, from: usize, to: usize, replacement: Vec<Chunk>, root: bool) -> (result: (TreeNode, Option<Vec<Chunk>>))
    requires
        height >= 1,
        balanced(node, height as nat),
        fits_as(node, height as nat, root),
        from <= to <= node_chunks(node).len(),
        node_chunks(node).len() < usize::MAX,
        node_chunks(node).len() - (to - from) + replacement@.len() < usize::MAX,
    ensures
        balanced(result.0, height as nat),
        fits_as(result.0, height as nat, root),
        result.1 matches Some(back) ==> node_chunks(result.0) == node_chunks(node) && back@ == replacement@,
        result.1 is None ==> node_chunks(result.0) == node_chunks(node).take(from as int) + replacement@ + node_chunks(
            node,
        ).skip(to as int),
    decreases height, 1int,
{
    match node {
        TreeNode::Page(chunks) => {
            let (page, back) = write_in_page(chunks, from, to, replacement, root);
            (TreeNode::Page(page), back)
        },
        TreeNode::Branch(children) => {
            let (children, back) = write_in_branch(children, height, from, to, replacement, root);
            (TreeNode::Branch(children), back)
        },
    }
}

/// Replaces the chunks `from..to` under the children of a branch with
/// `replacement` within the one page that holds them, as [write_in_node]
/// does.
#[verifier::spinoff_prover]
#[verifier::rlimit(100)]
fn write_in_branch(children: Vec<TreeNode>, height: usize, from: usize, to: usize, replacement: Vec<Chunk>, root: bool) -> (result: (Vec<TreeNode>, Option<Vec<Chunk>>))
    requires
        height > 1,
        balanced(TreeNode::Branch(children), height as nat),
        fits_as(TreeNode::Branch(children), height as nat, root),
        from <= to <= nodes_chunks(children@).len(),
        nodes_chunks(children@).len() < usize::MAX,
        nodes_chunks(children@).len() - (to - from) + replacement@.len() < usize::MAX,
    ensures
        balanced(TreeNode::Branch(result.0), height as nat),
        fits_as(TreeNode::Branch(result.0), height as nat, root),
        result.1 matches Some(back) ==> nodes_chunks(result.0@) == nodes_chunks(children@) && back@ == replacement@,
        result.1 is None ==> nodes_chunks(result.0@) == nodes_chunks(children@).take(from as int) + replacement@
            + nodes_chunks(children@).skip(to as int),
    decreases height, 0int,
{
    let mut children = children;
    let ghost nodes = children@;
    let ghost all = nodes_chunks(nodes);
    let ghost below = (height - 1) as nat;
    assert(forall|j: int| 0 <= j < nodes.len() ==> balanced(#[trigger] nodes[j], below));
    assert(forall|j: int| 0 <= j < nodes.len() ==> fits(#[trigger] nodes[j], below, TREE_PAGE_B as nat));
    let mut k: usize = 0;
    let mut acc: usize = 0;
    let mut searching = true;
    assert(nodes.take(0) =~= Seq::<TreeNode>::empty());
    proof {
        lemma_nodes_chunks_take(nodes, nodes.len() as int);
    }
    while searching && k < children.len()
        invariant
            nodes == children@,
            all == nodes_chunks(nodes),
            nodes.len() <= 2 * BRANCH_B - 1,
            forall|j: int| 0 <= j < nodes.len() ==> balanced(#[trigger] nodes[j], below),
            all.len() < usize::MAX,
            k <= nodes.len(),
            acc == nodes_chunks(nodes.take(k as int)).len(),
            acc <= from,
            !searching ==> k < nodes.len() && from < acc + node_chunks(nodes[k as int]).len(),
        decreases nodes.len() - k + (if searching { 1int } else { 0int }),
    {
        proof {
            assert(nodes.take(k + 1) =~= nodes.take(k as int).push(nodes[k as int]));
            lemma_nodes_chunks_push(nodes.take(k as int), nodes[k as int]);
            lemma_nodes_chunks_take(nodes, k + 1);
        }
        let count = node_len(&children[k], Ghost(below));
        if from < acc + count {
            searching = false;
        } else {
            acc = acc + count;
            k = k + 1;
        }
    }
    if searching {
        return (children, Some(replacement));
    }
    proof {
        lemma_nodes_chunks_at(nodes, k as int);
    }
    let count = node_len(&children[k], Ghost(below));
    if to - acc > count {
        return (children, Some(replacement));
    }
    let child = children.remove(k);
    let ghost child_chunks = node_chunks(child);
    assert(child == nodes[k as int]);
    let (new_child, back) = write_in_node(child, height - 1, from - acc, to - acc, replacement, false);
    children.insert(k, new_child);
    let ghost updated = children@;
    proof {
        assert(updated =~= nodes.update(k as int, new_child));
        lemma_nodes_chunks_at(updated, k as int);
        assert(updated.take(k as int) =~= nodes.take(k as int));
        assert(updated.skip(k + 1) =~= nodes.skip(k + 1));
        assert forall|j: int| 0 <= j < updated.len() implies balanced(#[trigger] updated[j], below) && fits(
            updated[j],
            below,
            TREE_PAGE_B as nat,
        ) by {
            if j != k {
                assert(updated[j] == nodes[j]);
            }
        }
    }
    match back {
        Some(replacement) => (children, Some(replacement)),
        None => {
            proof {
                let before = nodes_chunks(nodes.take(k as int));
                let after = nodes_chunks(nodes.skip(k + 1));
                assert(all.take(from as int) =~= before + child_chunks.take(from - acc));
                assert(all.skip(to as int) =~= child_chunks.skip(to - acc) + after);
                assert(nodes_chunks(updated) =~= all.take(from as int) + replacement@ + all.skip(to as int));
            }
            (children, None)
        },
    }
}

/// A copy of a chunk.
pub fn copy_chunk(chunk: &Chunk) -> (result: Chunk)
    ensures
        result == *chunk,
{
    Chunk { token: chunk.token, span: chunk.span, string: chunk.string.clone() }
}

/// Appends copies of the chunks under `node` to `out`.
fn append_copies(node: &TreeNode, Ghost(height): Ghost<nat>, out: &mut Vec<Chunk>)
    requires
        balanced(*node, height),
    ensures
        final(out)@ == old(out)@ + node_chunks(*node),
    decreases height,
{
    match node {
        TreeNode::Page(chunks) => {
            let ghost start = out@;
            let mut i: usize = 0;
            assert(out@ =~= start + chunks@.take(0));
            while i < chunks.len()
                invariant
                    i <= chunks@.len(),
                    out@ == start + chunks@.take(i as int),
                decreases chunks@.len() - i,
            {
                out.push(copy_chunk(&chunks[i]));
                assert(out@ =~= start + chunks@.take(i + 1));
                i = i + 1;
            }
            assert(chunks@.take(i as int) =~= chunks@);
        },
        TreeNode::Branch(children) => {
            let ghost nodes = children@;
            let ghost start = out@;
            let mut i: usize = 0;
            assert(nodes.take(0) =~= Seq::<TreeNode>::empty());
            assert(out@ =~= start + nodes_chunks(nodes.take(0)));
            while i < children.len()
                invariant
                    nodes == children@,
                    height > 1,
                    forall|j: int| 0 <= j < nodes.len() ==> balanced(#[trigger] nodes[j], (height - 1) as nat),
                    i <= nodes.len(),
                    out@ == start + nodes_chunks(nodes.take(i as int)),
                decreases nodes.len() - i,
            {
                append_copies(&children[i], Ghost((height - 1) as nat), out);
                proof {
                    assert(nodes.take(i + 1) =~= nodes.take(i as int).push(nodes[i as int]));
                    lemma_nodes_chunks_push(nodes.take(i as int), nodes[i as int]);
                    assert(out@ =~= start + nodes_chunks(nodes.take(i + 1)));
                }
                i = i + 1;
            }
            assert(nodes.take(i as int) =~= nodes);
        },
    }
}

impl TokenTree {
    /// Copies of the tree's chunks, in order.
    pub fn copy_chunks(&self) -> (result: Vec<Chunk>)
        requires
            self.wf(),
        ensures
            result@ == self.chunks(),
    {
        let mut out: Vec<Chunk> = Vec::new();
        match &self.root {
            Some(node) => {
                append_copies(node, Ghost(self.height as nat), &mut out);
                assert(out@ =~= self.chunks());
            },
            None => {
                assert(out@ =~= self.chunks());
            },
        }
        out
    }
}

} // verus!
