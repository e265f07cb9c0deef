//! The chapter transformer: it finds the code blocks that opt into
//! compilation, and splices the embeds of their artifacts after them.
use vstd::prelude::*;
use vstd::string::*;
use crate::compiler::{Iceberg, LIBRARY, embed_markup};
use crate::label::{eligible, height, is_eligible, label_height, opt_view};
use pulldown_cmark::{CodeBlockKind, Tag, TagEnd};

verus! {

#[verifier::external_type_specification]
#[verifier::external_body]
pub struct ExCmarkEvent<'a>(pulldown_cmark::Event<'a>);

#[verifier::external_type_specification]
#[verifier::external_body]
pub struct ExCmarkError(pulldown_cmark_to_cmark::Error);

/// One structural event of a chapter, as far as the transformer reads it.
pub enum Node {
    /// The start of a fenced code block, with its label.
    CodeStart(String),
    /// Text, inside a code block or elsewhere.
    Text(String),
    /// The end of a code block.
    CodeEnd,
    /// Inline markup.
    Html(String),
    /// Any other event, carried through untouched.
    Other(pulldown_cmark::Event<'static>),
}

/// An event with its strings seen as character sequences.
pub enum NodeView {
    CodeStart(Seq<char>),
    Text(Seq<char>),
    CodeEnd,
    Html(Seq<char>),
    Other(pulldown_cmark::Event<'static>),
}

impl View for Node {
    type V = NodeView;

    open spec fn view(&self) -> NodeView {
        match self {
            Node::CodeStart(s) => NodeView::CodeStart(s@),
            Node::Text(s) => NodeView::Text(s@),
            Node::CodeEnd => NodeView::CodeEnd,
            Node::Html(s) => NodeView::Html(s@),
            Node::Other(e) => NodeView::Other(*e),
        }
    }
}

pub open spec fn node_views(s: Seq<Node>) -> Seq<NodeView> {
    s.map_values(|e: Node| e@)
}

/// The events of a Markdown text, as parsed with every extension on.
pub uninterp spec fn markdown_events(text: Seq<char>) -> Seq<NodeView>;

/// Relies on `pulldown_cmark::Parser::new_ext` with `Options::all()`: the
/// events of the text, each sorted into the kinds above.
#[verifier::external_body]
fn parse_markdown(text: &str) -> (r: Vec<Node>)
    ensures
        node_views(r@) == markdown_events(text@),
        no_html(node_views(r@)),
{
    pulldown_cmark::Parser::new_ext(text, pulldown_cmark::Options::all()).map(|e| match e {
        pulldown_cmark::Event::Start(Tag::CodeBlock(CodeBlockKind::Fenced(l))) => Node::CodeStart(l.to_string()),
        pulldown_cmark::Event::Text(t) => Node::Text(t.to_string()),
        pulldown_cmark::Event::End(TagEnd::CodeBlock) => Node::CodeEnd,
        e => Node::Other(e.into_static()),
    }).collect()
}

/// Whether none of `nodes` is inline markup.
pub open spec fn no_html(nodes: Seq<NodeView>) -> bool {
    forall|i: int| 0 <= i < nodes.len() ==> !(#[trigger] nodes[i] is Html)
}

/// Whether a sequence of events can be written back as Markdown.
pub uninterp spec fn markdown_renders(events: Seq<NodeView>) -> bool;

/// The Markdown text that a sequence of events is written back as.
pub uninterp spec fn markdown_text(events: Seq<NodeView>) -> Seq<char>;

/// Relies on `pulldown_cmark_to_cmark::cmark` with `Options::all()`: whether the
/// events can be written back, and their text when they can, depend on the
/// events alone.
#[verifier::external_body]
fn render_markdown(events: Vec<Node>) -> (r: Result<String, pulldown_cmark_to_cmark::Error>)
    ensures
        r is Ok <==> markdown_renders(node_views(events@)),
        r is Ok ==> r->Ok_0@ == markdown_text(node_views(events@)),
{
    let mut text = String::new();
    let events = events.into_iter().map(|e| match e {
        Node::CodeStart(l) => pulldown_cmark::Event::Start(Tag::CodeBlock(CodeBlockKind::Fenced(l.into()))),
        Node::Text(t) => pulldown_cmark::Event::Text(t.into()),
        Node::CodeEnd => pulldown_cmark::Event::End(TagEnd::CodeBlock),
        Node::Html(h) => pulldown_cmark::Event::InlineHtml(h.into()),
        Node::Other(e) => e,
    });
    pulldown_cmark_to_cmark::cmark(events, &mut text, pulldown_cmark::Options::all()).map(|_| text)
}

/// A code block that opts into compilation: its source and the embed height
/// that its label asks for.
pub struct Block {
    pub code: String,
    pub height: Option<String>,
}

impl View for Block {
    type V = (Seq<char>, Option<Seq<char>>);

    open spec fn view(&self) -> (Seq<char>, Option<Seq<char>>) {
        (self.code@, opt_view(self.height))
    }
}

pub open spec fn block_views(s: Seq<Block>) -> Seq<(Seq<char>, Option<Seq<char>>)> {
    s.map_values(|b: Block| b@)
}

/// Where the scan of a chapter stands: inside an eligible block or not, the
/// source and height of the current block, and the blocks finished so far.
pub struct Scan {
    pub inside: bool,
    pub code: Seq<char>,
    pub height: Option<Seq<char>>,
    pub blocks: Seq<(Seq<char>, Option<Seq<char>>)>,
}

/// The source of a block after one more text: texts are joined by a newline,
/// and the source starts with one.
pub open spec fn with_text(code: Seq<char>, t: Seq<char>) -> Seq<char> {
    if code.len() > 0 && code.last() == '\n' {
        code + t
    } else {
        code.push('\n') + t
    }
}

/// The two-state scan of a chapter's events. An eligible block starts at the
/// start of a fenced block whose label opts in, gathers the texts inside, and
/// is finished at the end of the code block.
pub open spec fn scan(nodes: Seq<NodeView>) -> Scan
    decreases nodes.len(),
{
    if nodes.len() == 0 {
        Scan { inside: false, code: Seq::empty(), height: None, blocks: Seq::empty() }
    } else {
        let s = scan(nodes.drop_last());
        match nodes.last() {
            NodeView::CodeStart(label) => if is_eligible(label) {
                Scan { inside: true, code: Seq::empty(), height: label_height(label), ..s }
            } else {
                s
            },
            NodeView::Text(t) => if s.inside {
                Scan { code: with_text(s.code, t), ..s }
            } else {
                s
            },
            NodeView::CodeEnd => if s.inside {
                Scan { inside: false, blocks: s.blocks.push((s.code, s.height)), ..s }
            } else {
                s
            },
            _ => s,
        }
    }
}

/// What splicing has made of a chapter so far: whether the shared script has
/// been placed, the next embed identifier, the events written out, and the
/// handles embedded.
pub struct Splice {
    pub bootstrapped: bool,
    pub next_id: int,
    pub out: Seq<NodeView>,
    pub icebergs: Seq<Iceberg>,
}

/// The compile result of block `k`; a block without one has none.
pub open spec fn result_at(results: Seq<Option<Iceberg>>, k: int) -> Option<Iceberg> {
    if 0 <= k < results.len() {
        results[k]
    } else {
        None
    }
}

/// Every event is written out as it came. After the end of the `k`-th eligible
/// block whose compile result is a handle come the shared script, the first
/// time only, and the embed of the handle with the next identifier.
pub open spec fn splice(nodes: Seq<NodeView>, results: Seq<Option<Iceberg>>, first_id: int) -> Splice
    decreases nodes.len(),
{
    if nodes.len() == 0 {
        Splice { bootstrapped: false, next_id: first_id, out: Seq::empty(), icebergs: Seq::empty() }
    } else {
        let p = splice(nodes.drop_last(), results, first_id);
        let s = scan(nodes.drop_last());
        let out = p.out.push(nodes.last());
        if nodes.last() is CodeEnd && s.inside {
            match result_at(results, s.blocks.len() as int) {
                Some(ic) => Splice {
                    bootstrapped: true,
                    next_id: p.next_id + 1,
                    out: out + (if p.bootstrapped {
                        Seq::empty()
                    } else {
                        seq![NodeView::Html(LIBRARY@)]
                    }) + seq![NodeView::Html(embed_markup(ic@, p.next_id as u64, s.height))],
                    icebergs: p.icebergs.push(ic),
                },
                None => Splice { out, ..p },
            }
        } else {
            Splice { out, ..p }
        }
    }
}

/// The eligible code blocks of a chapter's events, in order.
pub fn code_blocks(nodes: &Vec<Node>) -> (r: Vec<Block>)
    ensures
        block_views(r@) == scan(node_views(nodes@)).blocks,
{
    let mut inside = false;
    let mut code = String::new();
    let mut h: Option<String> = None;
    let mut blocks: Vec<Block> = Vec::new();
    let mut i: usize = 0;
    while i < nodes.len()
        invariant
            i <= nodes.len(),
            scan(node_views(nodes@).subrange(0, i as int)).inside == inside,
            inside ==> scan(node_views(nodes@).subrange(0, i as int)).code == code@,
            inside ==> scan(node_views(nodes@).subrange(0, i as int)).height == opt_view(h),
            scan(node_views(nodes@).subrange(0, i as int)).blocks == block_views(blocks@),
        decreases nodes.len() - i,
    {
        let ghost pre = node_views(nodes@).subrange(0, i as int);
        let ghost now = node_views(nodes@).subrange(0, i + 1);
        assert(now.drop_last() =~= pre);
        assert(now.last() == nodes@[i as int]@);
        match &nodes[i] {
            Node::CodeStart(label) => {
                if eligible(label.as_str()) {
                    inside = true;
                    code = String::new();
                    h = height(label.as_str());
                }
            },
            Node::Text(t) => {
                if inside {
                    let n = code.unicode_len();
                    if !(n > 0 && code.get_char(n - 1) == '\n') {
                        code.append("\n");
                        proof {
                            reveal_strlit("\n");
                        }
                    }
                    code.append(t.as_str());
                }
            },
            Node::CodeEnd => {
                if inside {
                    inside = false;
                    let ghost before = block_views(blocks@);
                    blocks.push(Block { code, height: h });
                    assert(block_views(blocks@) =~= before.push(
                        (scan(pre).code, scan(pre).height),
                    ));
                    code = String::new();
                    h = None;
                }
            },
            _ => {},
        }
        i = i + 1;
    }
    assert(node_views(nodes@).subrange(0, i as int) =~= node_views(nodes@));
    blocks
}

/// The events of a chapter with the embeds spliced in, the handles embedded,
/// and the next free embed identifier.
pub struct Spliced {
    pub nodes: Vec<Node>,
    pub icebergs: Vec<Iceberg>,
    pub next_id: u64,
}

/// Splices the embeds of `results`, the compile results of the eligible blocks
/// in order, into a chapter's events; identifiers are taken from `first_id` on.
pub fn splice_nodes(nodes: Vec<Node>, results: &Vec<Option<Iceberg>>, first_id: u64) -> (r: Spliced)
    requires
        first_id + results@.len() <= u64::MAX,
    ensures
        node_views(r.nodes@) == splice(node_views(nodes@), results@, first_id as int).out,
        r.icebergs@ == splice(node_views(nodes@), results@, first_id as int).icebergs,
        r.next_id == splice(node_views(nodes@), results@, first_id as int).next_id,
{
    let ghost all = node_views(nodes@);
    let len = nodes.len();
    let mut inside = false;
    let mut h: Option<String> = None;
    let mut k: usize = 0;
    let mut bootstrapped = false;
    let mut id = first_id;
    let mut out: Vec<Node> = Vec::new();
    let mut icebergs: Vec<Iceberg> = Vec::new();
    for node in it: nodes.into_iter()
        invariant
            node_views(it.seq()) == all,
            all.len() == len,
            first_id + results@.len() <= u64::MAX,
            k <= it.index(),
            scan(all.subrange(0, it.index() as int)).inside == inside,
            inside ==> scan(all.subrange(0, it.index() as int)).height == opt_view(h),
            scan(all.subrange(0, it.index() as int)).blocks.len() == k,
            splice(all.subrange(0, it.index() as int), results@, first_id as int).bootstrapped
                == bootstrapped,
            splice(all.subrange(0, it.index() as int), results@, first_id as int).next_id == id,
            splice(all.subrange(0, it.index() as int), results@, first_id as int).out
                == node_views(out@),
            splice(all.subrange(0, it.index() as int), results@, first_id as int).icebergs
                == icebergs@,
            icebergs@.len() <= k,
            icebergs@.len() <= results@.len(),
            id == first_id + icebergs@.len(),
    {
        let ghost pre = all.subrange(0, it.index() as int);
        let ghost now = all.subrange(0, it.index() + 1);
        assert(now.drop_last() =~= pre);
        assert(now.last() == node@);
        let ghost before = node_views(out@);
        match node {
            Node::CodeStart(label) => {
                if eligible(label.as_str()) {
                    inside = true;
                    h = height(label.as_str());
                }
                out.push(Node::CodeStart(label));
            },
            Node::CodeEnd => {
                out.push(Node::CodeEnd);
                if inside {
                    inside = false;
                    let result = if k < results.len() {
                        match &results[k] {
                            Some(ic) => Some(ic.duplicate()),
                            None => None,
                        }
                    } else {
                        None
                    };
                    k = k + 1;
                    if let Some(ic) = result {
                        if !bootstrapped {
                            out.push(Node::Html(String::from_str(LIBRARY)));
                            bootstrapped = true;
                        }
                        let height = match &h {
                            Some(s) => Some(s.as_str()),
                            None => None,
                        };
                        out.push(Node::Html(ic.embed(id, height)));
                        id = id + 1;
                        icebergs.push(ic);
                    }
                }
            },
            other => {
                out.push(other);
            },
        }
        assert(node_views(out@) =~= splice(now, results@, first_id as int).out);
    }
    assert(all.subrange(0, all.len() as int) =~= all);
    Spliced { nodes: out, icebergs, next_id: id }
}

/// A parsed chapter: its events and its eligible code blocks, in order.
pub struct Chapter {
    pub nodes: Vec<Node>,
    pub blocks: Vec<Block>,
}

/// Parses a chapter's text and finds the code blocks that opt into
/// compilation.
pub fn chapter_blocks(content: &str) -> (r: Chapter)
    ensures
        node_views(r.nodes@) == markdown_events(content@),
        no_html(markdown_events(content@)),
        block_views(r.blocks@) == scan(markdown_events(content@)).blocks,
{
    let nodes = parse_markdown(content);
    let blocks = code_blocks(&nodes);
    Chapter { nodes, blocks }
}

/// A transformed chapter: its text, the handles it embeds, and the next free
/// embed identifier.
pub struct Processed {
    pub content: String,
    pub icebergs: Vec<Iceberg>,
    pub next_id: u64,
}

/// The transformed events could not be written back as Markdown.
#[derive(Debug, Clone, Copy, PartialEq, Eq)]
pub enum DocumentError {
    Unrenderable,
}

/// Splices the embeds of `results`, the compile results of the chapter's
/// eligible blocks in order, into its events and writes the chapter back as
/// Markdown.
pub fn process_chapter(nodes: Vec<Node>, results: &Vec<Option<Iceberg>>, first_id: u64) -> (r:
    Result<Processed, DocumentError>)
    requires
        first_id + results@.len() <= u64::MAX,
    ensures
        r matches Ok(p) ==> {
            &&& p.content@ == markdown_text(splice(node_views(nodes@), results@, first_id as int).out)
            &&& p.icebergs@ == splice(node_views(nodes@), results@, first_id as int).icebergs
            &&& p.next_id == splice(node_views(nodes@), results@, first_id as int).next_id
        },
        r is Ok <==> markdown_renders(splice(node_views(nodes@), results@, first_id as int).out),
        r matches Err(e) ==> e == DocumentError::Unrenderable,
{
    let spliced = splice_nodes(nodes, results, first_id);
    match render_markdown(spliced.nodes) {
        Ok(content) => Ok(Processed { content, icebergs: spliced.icebergs, next_id: spliced.next_id }),
        Err(_) => Err(DocumentError::Unrenderable),
    }
}

/// Whether no fenced block among `nodes` opts into compilation.
pub open spec fn none_eligible(nodes: Seq<NodeView>) -> bool {
    forall|i: int| 0 <= i < nodes.len() ==> (#[trigger] nodes[i] matches NodeView::CodeStart(l)
        ==> !is_eligible(l))
}

/// A chapter without eligible blocks comes out as it went in, and embeds
/// nothing.
pub proof fn lemma_pass_through(nodes: Seq<NodeView>, results: Seq<Option<Iceberg>>, first_id: int)
    requires
        none_eligible(nodes),
    ensures
        splice(nodes, results, first_id).out == nodes,
        splice(nodes, results, first_id).icebergs.len() == 0,
        scan(nodes).blocks.len() == 0,
        !scan(nodes).inside,
    decreases nodes.len(),
{
    if nodes.len() > 0 {
        let pre = nodes.drop_last();
        assert forall|i: int| 0 <= i < pre.len() implies (#[trigger] pre[i] matches NodeView::CodeStart(
            l,
        ) ==> !is_eligible(l)) by {
            assert(pre[i] == nodes[i]);
        }
        lemma_pass_through(pre, results, first_id);
        assert(nodes.last() == nodes[nodes.len() - 1]);
        assert(pre.push(nodes.last()) =~= nodes);
    }
}

/// How many of `nodes` are the shared script.
pub open spec fn library_count(nodes: Seq<NodeView>) -> nat
    decreases nodes.len(),
{
    if nodes.len() == 0 {
        0
    } else {
        library_count(nodes.drop_last()) + if nodes.last() == NodeView::Html(LIBRARY@) {
            1nat
        } else {
            0nat
        }
    }
}

pub proof fn lemma_library_count_append(a: Seq<NodeView>, b: Seq<NodeView>)
    ensures
        library_count(a + b) == library_count(a) + library_count(b),
    decreases b.len(),
{
    if b.len() > 0 {
        lemma_library_count_append(a, b.drop_last());
        assert((a + b).drop_last() =~= a + b.drop_last());
    } else {
        assert(a + b =~= a);
    }
}

/// Splicing adds the shared script once when it embeds anything and never
/// otherwise, and gives the embeds the identifiers from `first_id` on, one each.
pub proof fn lemma_single_bootstrap(nodes: Seq<NodeView>, results: Seq<Option<Iceberg>>, first_id: int)
    ensures
        library_count(splice(nodes, results, first_id).out) == library_count(nodes) + if splice(
            nodes,
            results,
            first_id,
        ).icebergs.len() > 0 {
            1nat
        } else {
            0nat
        },
        splice(nodes, results, first_id).bootstrapped == (splice(nodes, results, first_id).icebergs.len() > 0),
        splice(nodes, results, first_id).next_id == first_id + splice(nodes, results, first_id).icebergs.len(),
    decreases nodes.len(),
{
    if nodes.len() > 0 {
        let pre = nodes.drop_last();
        lemma_single_bootstrap(pre, results, first_id);
        let p = splice(pre, results, first_id);
        let s = scan(pre);
        let e = nodes.last();
        let out = p.out.push(e);
        assert(out.drop_last() =~= p.out);
        assert(library_count(out) == library_count(p.out) + library_count(seq![e])) by {
            assert(out =~= p.out + seq![e]);
            lemma_library_count_append(p.out, seq![e]);
            assert(seq![e].drop_last() =~= Seq::<NodeView>::empty());
        }
        assert(library_count(nodes) == library_count(pre) + library_count(seq![e])) by {
            assert(nodes =~= pre + seq![e]);
            lemma_library_count_append(pre, seq![e]);
            assert(seq![e].drop_last() =~= Seq::<NodeView>::empty());
        }
        if e is CodeEnd && s.inside {
            if let Some(ic) = result_at(results, s.blocks.len() as int) {
                let lib: Seq<NodeView> = if p.bootstrapped {
                    Seq::empty()
                } else {
                    seq![NodeView::Html(LIBRARY@)]
                };
                let emb = seq![NodeView::Html(embed_markup(ic@, p.next_id as u64, s.height))];
                lemma_library_count_append(out, lib);
                lemma_library_count_append(out + lib, emb);
                assert(emb.drop_last() =~= Seq::<NodeView>::empty());
                assert(embed_markup(ic@, p.next_id as u64, s.height) != LIBRARY@) by {
                    reveal_strlit("<div class=\"iceberg\" data-hash=\"");
                    reveal_strlit("<script type=\"module\">
const icebergs = document.querySelectorAll(\".iceberg\");

for (const iceberg of icebergs) {
  const hash = iceberg.dataset.hash;
  import(`/.icebergs/${hash}/iceberg.js`).then((module) => module.default());
}
</script>");
                    assert(embed_markup(ic@, p.next_id as u64, s.height)[1] != LIBRARY@[1]);
                }
                if !p.bootstrapped {
                    assert(lib.drop_last() =~= Seq::<NodeView>::empty());
                    assert(library_count(lib.drop_last()) == 0);
                    assert(library_count(lib) == 1);
                } else {
                    assert(lib =~= Seq::<NodeView>::empty());
                    assert(library_count(lib) == 0);
                }
                assert(library_count(emb) == 0);
                assert(splice(nodes, results, first_id).out == out + lib + emb);
                assert(library_count(out + lib + emb) == library_count(out) + library_count(lib));
            }
        }
    }
}

/// The compile results of the first `n` blocks that are handles, in order.
pub open spec fn handles_upto(results: Seq<Option<Iceberg>>, n: int) -> Seq<Iceberg>
    decreases n,
{
    if n <= 0 {
        Seq::empty()
    } else {
        let r = handles_upto(results, n - 1);
        match result_at(results, n - 1) {
            Some(ic) => r.push(ic),
            None => r,
        }
    }
}

/// A block whose compile failed embeds nothing and takes nothing from the
/// others: the handles embedded are those of the blocks that compiled, in order.
pub proof fn lemma_failures_isolated(nodes: Seq<NodeView>, results: Seq<Option<Iceberg>>, first_id: int)
    ensures
        splice(nodes, results, first_id).icebergs == handles_upto(results, scan(nodes).blocks.len() as int),
    decreases nodes.len(),
{
    if nodes.len() > 0 {
        lemma_failures_isolated(nodes.drop_last(), results, first_id);
    }
}

/// Splicing more events only extends what was written out before.
pub proof fn lemma_splice_prefix(
    nodes: Seq<NodeView>,
    results: Seq<Option<Iceberg>>,
    first_id: int,
    j: int,
)
    requires
        0 <= j <= nodes.len(),
    ensures
        splice(nodes.subrange(0, j), results, first_id).out.len() <= splice(
            nodes,
            results,
            first_id,
        ).out.len(),
        splice(nodes, results, first_id).out.subrange(
            0,
            splice(nodes.subrange(0, j), results, first_id).out.len() as int,
        ) == splice(nodes.subrange(0, j), results, first_id).out,
        splice(nodes.subrange(0, j), results, first_id).icebergs.len() <= splice(
            nodes,
            results,
            first_id,
        ).icebergs.len(),
    decreases nodes.len(),
{
    if j < nodes.len() {
        let pre = nodes.drop_last();
        lemma_splice_prefix(pre, results, first_id, j);
        assert(pre.subrange(0, j) =~= nodes.subrange(0, j));
        let a = splice(pre, results, first_id).out;
        let b = splice(nodes, results, first_id).out;
        let c = splice(nodes.subrange(0, j), results, first_id).out;
        assert(b.subrange(0, a.len() as int) =~= a);
        assert(b.subrange(0, c.len() as int) =~= a.subrange(0, c.len() as int));
    } else {
        assert(nodes.subrange(0, j) =~= nodes);
        assert(splice(nodes, results, first_id).out.subrange(
            0,
            splice(nodes, results, first_id).out.len() as int,
        ) =~= splice(nodes, results, first_id).out);
    }
}

/// Where the `i`-th event lands: every event is written out as it came, in
/// order. After the end of an eligible block whose compile gave a handle
/// follow the shared script, where no embed came before, and then the embed
/// of that handle with the next identifier, `first_id` plus the number of
/// embeds before it. After any other event, a failed block's end included,
/// nothing is added.
pub proof fn lemma_event_placed(
    nodes: Seq<NodeView>,
    results: Seq<Option<Iceberg>>,
    first_id: int,
    i: int,
)
    requires
        0 <= i < nodes.len(),
    ensures
        ({
            let pre = splice(nodes.subrange(0, i), results, first_id);
            let now = splice(nodes.subrange(0, i + 1), results, first_id);
            let s = scan(nodes.subrange(0, i));
            let out = splice(nodes, results, first_id).out;
            &&& pre.out.len() < now.out.len() <= out.len()
            &&& out[pre.out.len() as int] == nodes[i]
            &&& out.subrange(0, now.out.len() as int) == now.out
            &&& if nodes[i] is CodeEnd && s.inside && result_at(results, s.blocks.len() as int) is Some {
                let ic = result_at(results, s.blocks.len() as int)->0;
                &&& out[now.out.len() - 1] == NodeView::Html(
                    embed_markup(ic@, (first_id + pre.icebergs.len()) as u64, s.height),
                )
                &&& now.icebergs == pre.icebergs.push(ic)
                &&& pre.icebergs.len() == 0 ==> out[pre.out.len() + 1int] == NodeView::Html(LIBRARY@)
                &&& pre.icebergs.len() > 0 ==> now.out.len() == pre.out.len() + 2
            } else {
                &&& now.out.len() == pre.out.len() + 1
                &&& now.icebergs == pre.icebergs
            }
        }),
{
    let now_nodes = nodes.subrange(0, i + 1);
    assert(now_nodes.drop_last() =~= nodes.subrange(0, i));
    assert(now_nodes.last() == nodes[i]);
    lemma_splice_prefix(nodes, results, first_id, i + 1);
    lemma_single_bootstrap(nodes.subrange(0, i), results, first_id);
    let pre = splice(nodes.subrange(0, i), results, first_id);
    let now = splice(now_nodes, results, first_id);
    let out = splice(nodes, results, first_id).out;
    assert(now.out[pre.out.len() as int] == nodes[i]);
    assert(out.subrange(0, now.out.len() as int)[pre.out.len() as int] == out[pre.out.len() as int]);
    let s = scan(nodes.subrange(0, i));
    if nodes[i] is CodeEnd && s.inside && result_at(results, s.blocks.len() as int) is Some {
        assert(out.subrange(0, now.out.len() as int)[now.out.len() - 1] == out[now.out.len() - 1]);
        if pre.icebergs.len() == 0 {
            assert(now.out[pre.out.len() + 1int] == NodeView::Html(LIBRARY@));
            assert(out.subrange(0, now.out.len() as int)[pre.out.len() + 1int] == out[pre.out.len() + 1int]);
        }
    }
}

/// Whether the `i`-th event ends an eligible block whose compile gave a handle.
pub open spec fn embeds_at(nodes: Seq<NodeView>, results: Seq<Option<Iceberg>>, i: int) -> bool {
    let s = scan(nodes.subrange(0, i));
    nodes[i] is CodeEnd && s.inside && result_at(results, s.blocks.len() as int) is Some
}

/// Embeds get increasing identifiers in the order of their blocks: the embed
/// after event `i` has a smaller one than any embed after a later event `j`.
pub proof fn lemma_embed_ids_increase(
    nodes: Seq<NodeView>,
    results: Seq<Option<Iceberg>>,
    first_id: int,
    i: int,
    j: int,
)
    requires
        0 <= i < j < nodes.len(),
        embeds_at(nodes, results, i),
    ensures
        splice(nodes.subrange(0, i), results, first_id).icebergs.len() < splice(
            nodes.subrange(0, j),
            results,
            first_id,
        ).icebergs.len(),
{
    lemma_event_placed(nodes, results, first_id, i);
    let upto = nodes.subrange(0, j);
    lemma_splice_prefix(upto, results, first_id, i + 1);
    assert(upto.subrange(0, i + 1) =~= nodes.subrange(0, i + 1));
}

pub proof fn lemma_no_html_no_library(nodes: Seq<NodeView>)
    requires
        no_html(nodes),
    ensures
        library_count(nodes) == 0,
    decreases nodes.len(),
{
    if nodes.len() > 0 {
        let pre = nodes.drop_last();
        assert forall|i: int| 0 <= i < pre.len() implies !(#[trigger] pre[i] is Html) by {
            assert(pre[i] == nodes[i]);
        }
        lemma_no_html_no_library(pre);
        assert(!(nodes[nodes.len() - 1] is Html));
    }
}

/// A parsed chapter holds no shared script of its own, so after splicing it
/// holds exactly one when anything was embedded and none otherwise.
pub proof fn lemma_parsed_chapter_bootstrap(
    nodes: Seq<NodeView>,
    results: Seq<Option<Iceberg>>,
    first_id: int,
)
    requires
        no_html(nodes),
    ensures
        library_count(splice(nodes, results, first_id).out) == if splice(
            nodes,
            results,
            first_id,
        ).icebergs.len() > 0 {
            1nat
        } else {
            0nat
        },
{
    lemma_no_html_no_library(nodes);
    lemma_single_bootstrap(nodes, results, first_id);
}

} // verus!
