//! Lines: what the engine keeps of a node, and the text drawn from it.

use vstd::prelude::*;
use vstd::string::*;
use crate::config::Config;
use crate::path::{PathInfo, PathView};

verus! {

/// The glyph set that connectors are drawn with.
#[derive(Copy, Clone, Debug, PartialEq, Eq, Structural)]
pub enum Charset {
    Ascii,
    Fancy,
}

/// One node about to be shown, with what its indentation depends on.
#[derive(Debug)]
pub struct Line {
    pub depth: usize,
    pub is_last_child: bool,
    pub ancestors_are_last_children: bool,
    pub path: PathInfo,
}

/// The mathematical value of a [`Line`].
pub ghost struct LineView {
    pub depth: nat,
    pub is_last_child: bool,
    pub ancestors_are_last_children: bool,
    pub path: PathView,
}

impl View for Line {
    type V = LineView;

    open spec fn view(&self) -> LineView {
        LineView {
            depth: self.depth as nat,
            is_last_child: self.is_last_child,
            ancestors_are_last_children: self.ancestors_are_last_children,
            path: self.path@,
        }
    }
}

impl Clone for Line {
    fn clone(&self) -> (r: Self)
        ensures
            r@ == self@,
    {
        Line {
            depth: self.depth,
            is_last_child: self.is_last_child,
            ancestors_are_last_children: self.ancestors_are_last_children,
            path: self.path.clone(),
        }
    }
}

impl Line {
    /// A line of the given fields.
    pub fn new(
        depth: usize,
        is_last_child: bool,
        ancestors_are_last_children: bool,
        path: PathInfo,
    ) -> (r: Line)
        ensures
            r.depth == depth,
            r.is_last_child == is_last_child,
            r.ancestors_are_last_children == ancestors_are_last_children,
            r.path == path,
    {
        Line { depth, is_last_child, ancestors_are_last_children, path }
    }
}

/// The width of one indentation step, in characters.
pub const STEP_WIDTH: usize = 4;

/// The glyph that continues an ancestor's branch downwards.
pub open spec fn vertical_glyph(charset: Charset) -> char {
    match charset {
        Charset::Fancy => '│',
        Charset::Ascii => '|',
    }
}

/// The glyph that fills a connector up to the step width.
pub open spec fn fill_glyph(charset: Charset) -> char {
    match charset {
        Charset::Fancy => '─',
        Charset::Ascii => '-',
    }
}

/// The connector of a node: the final branch for a last sibling, the mid
/// branch for any other.
pub open spec fn connector(is_last_child: bool, charset: Charset) -> Seq<char> {
    match charset {
        Charset::Fancy => if is_last_child {
            seq!['└', '─']
        } else {
            seq!['├']
        },
        Charset::Ascii => if is_last_child {
            seq!['\\']
        } else {
            seq!['+']
        },
    }
}

/// `count` copies of `glyph`.
pub open spec fn repeated(glyph: char, count: nat) -> Seq<char> {
    Seq::new(count, |i: int| glyph)
}

/// The segment drawn for one ancestor level: `width` characters, the first a
/// blank where all ancestors were last siblings and the vertical glyph
/// otherwise, the others blank.
pub open spec fn ancestor_segment(ancestors_are_last_children: bool, width: nat, charset: Charset) -> Seq<
    char,
> {
    if width == 0 {
        Seq::empty()
    } else {
        let lead = if ancestors_are_last_children {
            ' '
        } else {
            vertical_glyph(charset)
        };
        seq![lead] + repeated(' ', (width - 1) as nat)
    }
}

/// The segments of `steps` ancestor levels, one after the other.
pub open spec fn ancestor_indent(
    steps: nat,
    ancestors_are_last_children: bool,
    width: nat,
    charset: Charset,
) -> Seq<char>
    decreases steps,
{
    if steps == 0 {
        Seq::empty()
    } else {
        ancestor_indent((steps - 1) as nat, ancestors_are_last_children, width, charset)
            + ancestor_segment(ancestors_are_last_children, width, charset)
    }
}

/// The prefix drawn before a node's name: nothing at depth 0; below that one
/// segment for each ancestor level but the last, then the node's connector,
/// filled up to `depth * width` characters.
pub open spec fn indentation(line: LineView, width: nat, charset: Charset) -> Seq<char> {
    if line.depth == 0 {
        Seq::empty()
    } else {
        let head = ancestor_indent(
            (line.depth - 1) as nat,
            line.ancestors_are_last_children,
            width,
            charset,
        ) + connector(line.is_last_child, charset);
        if head.len() < line.depth * width {
            head + repeated(fill_glyph(charset), (line.depth * width - head.len()) as nat)
        } else {
            head
        }
    }
}

/// Whether a node gets a line of output.
pub open spec fn is_shown(line: LineView, config: Config) -> bool {
    config.only_show_directories ==> line.path.is_dir
}

/// The text of a node's line: its indentation, then its name.
pub open spec fn rendered(line: LineView, charset: Charset) -> Seq<char> {
    indentation(line, STEP_WIDTH as nat, charset) + line.path.name()
}

/// The segments of `steps` ancestor levels are `steps` steps wide.
pub proof fn lemma_ancestor_indent_len(
    steps: nat,
    ancestors_are_last_children: bool,
    width: nat,
    charset: Charset,
)
    ensures
        ancestor_indent(steps, ancestors_are_last_children, width, charset).len() == steps * width,
    decreases steps,
{
    if steps > 0 {
        lemma_ancestor_indent_len(
            (steps - 1) as nat,
            ancestors_are_last_children,
            width,
            charset,
        );
        assert((steps - 1) * width + width == steps * width) by (nonlinear_arith);
    } else {
        assert(0 * width == 0) by (nonlinear_arith);
    }
}

/// A root has no indentation. Below the roots, with steps that are wide
/// enough for a connector, the indentation of a node is as many steps wide
/// as the node lies deep.
pub proof fn lemma_indentation_len(line: LineView, width: nat, charset: Charset)
    ensures
        line.depth == 0 ==> indentation(line, width, charset) == Seq::<char>::empty(),
        width >= 2 ==> indentation(line, width, charset).len() == line.depth * width,
{
    if line.depth > 0 {
        lemma_ancestor_indent_len(
            (line.depth - 1) as nat,
            line.ancestors_are_last_children,
            width,
            charset,
        );
        assert((line.depth - 1) * width + width == line.depth * width) by (nonlinear_arith)
            requires
                line.depth >= 1,
        ;
    } else {
        assert(0 * width == 0) by (nonlinear_arith);
    }
}

/// Appends `count` copies of a one-character glyph.
fn push_repeated(text: &mut String, glyph: &str, count: usize)
    requires
        glyph@.len() == 1,
    ensures
        final(text)@ == old(text)@ + repeated(glyph@[0], count as nat),
{
    let mut done: usize = 0;
    while done < count
        invariant
            done <= count,
            glyph@.len() == 1,
            text@ == old(text)@ + repeated(glyph@[0], done as nat),
        decreases count - done,
    {
        text.append(glyph);
        done += 1;
    }
}

/// The text for the ancestor levels above a node's own connector.
pub fn create_ancestor_indent(
    steps: usize,
    ancestors_are_last_children: bool,
    amount_per_step: usize,
    charset: Charset,
) -> (r: String)
    ensures
        r@ == ancestor_indent(
            steps as nat,
            ancestors_are_last_children,
            amount_per_step as nat,
            charset,
        ),
{
    let vertical_line = match charset {
        Charset::Fancy => "│",
        Charset::Ascii => "|",
    };
    proof {
        reveal_strlit("│");
        reveal_strlit("|");
        reveal_strlit(" ");
    }
    let mut ancestor_indent = String::new();
    let mut done: usize = 0;
    while done < steps
        invariant
            done <= steps,
            vertical_line@ == seq![vertical_glyph(charset)],
            " "@ == seq![' '],
            ancestor_indent@ == self::ancestor_indent(
                done as nat,
                ancestors_are_last_children,
                amount_per_step as nat,
                charset,
            ),
        decreases steps - done,
    {
        if amount_per_step > 0 {
            if ancestors_are_last_children {
                ancestor_indent.append(" ");
            } else {
                ancestor_indent.append(vertical_line);
            }
            push_repeated(&mut ancestor_indent, " ", amount_per_step - 1);
        }
        done += 1;
    }
    ancestor_indent
}

/// The prefix drawn before a node's name.
pub fn create_indentation(line: &Line, amount_per_step: usize, charset: Charset) -> (r: String)
    ensures
        r@ == indentation(line@, amount_per_step as nat, charset),
{
    let (t_char, corner_char, dash_char) = match charset {
        Charset::Fancy => ("├", "└─", "─"),
        Charset::Ascii => ("+", "\\", "-"),
    };
    proof {
        reveal_strlit("├");
        reveal_strlit("└─");
        reveal_strlit("─");
        reveal_strlit("+");
        reveal_strlit("\\");
        reveal_strlit("-");
    }
    if line.depth == 0 {
        return String::new();
    }
    let mut indent = create_ancestor_indent(
        line.depth - 1,
        line.ancestors_are_last_children,
        amount_per_step,
        charset,
    );
    let connector_len: usize = if line.is_last_child {
        indent.append(corner_char);
        match charset {
            Charset::Fancy => 2,
            Charset::Ascii => 1,
        }
    } else {
        indent.append(t_char);
        1
    };
    let fill: usize = if amount_per_step > connector_len {
        amount_per_step - connector_len
    } else {
        0
    };
    proof {
        let w = amount_per_step as nat;
        let d = line.depth as nat;
        lemma_ancestor_indent_len((d - 1) as nat, line.ancestors_are_last_children, w, charset);
        assert((d - 1) * w + w == d * w) by (nonlinear_arith)
            requires
                d >= 1,
        ;
    }
    push_repeated(&mut indent, dash_char, fill);
    indent
}

/// The line of output for a node, or `None` where the node gets none.
pub fn display(line: &Line, config: &Config) -> (r: Option<String>)
    ensures
        match r {
            Some(text) => is_shown(line@, *config) && text@ == rendered(line@, config.charset),
            None => !is_shown(line@, *config),
        },
{
    if config.only_show_directories && !line.path.is_dir {
        return None;
    }
    let mut text = create_indentation(line, STEP_WIDTH, config.charset);
    text.append(line.path.name());
    Some(text)
}

} // verus!
