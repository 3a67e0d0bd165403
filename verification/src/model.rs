//! The mathematical model of a document and of its layout.
//!
//! A [`DocV`] is the abstract shape of a document; a stack of [`SFrame`]s is
//! the state of the Wadler/Lindig layout engine (top of the stack last). The
//! spec functions here define what rendering produces; the executable engine in
//! `render.rs` is proved to compute exactly `layout`.

use vstd::prelude::*;

verus! {

/// The abstract document tree.
pub ghost enum DocV {
    Nil,
    Text(Seq<char>),
    Line,
    SoftLine,
    HardLine,
    Cat(Box<DocV>, Box<DocV>),
    Nest(int, Box<DocV>),
    Group(Box<DocV>),
}

/// One pending piece of layout work: lay `doc` out at `indent`, flat or broken.
pub ghost struct SFrame {
    pub indent: int,
    pub flat: bool,
    pub doc: DocV,
}

pub open spec fn frame(indent: int, flat: bool, doc: DocV) -> SFrame {
    SFrame { indent, flat, doc }
}

/// Number of nodes in a document.
pub open spec fn size(d: DocV) -> nat
    decreases d,
{
    match d {
        DocV::Cat(a, b) => 1 + size(*a) + size(*b),
        DocV::Nest(_, x) => 1 + size(*x),
        DocV::Group(x) => 1 + size(*x),
        _ => 1,
    }
}

/// Total number of document nodes still to be laid out on a stack.
pub open spec fn stack_size(fs: Seq<SFrame>) -> nat
    decreases fs.len(),
{
    if fs.len() == 0 {
        0
    } else {
        size(fs.last().doc) + stack_size(fs.drop_last())
    }
}

pub proof fn lemma_stack_size_push(fs: Seq<SFrame>, f: SFrame)
    ensures
        stack_size(fs.push(f)) == stack_size(fs) + size(f.doc),
{
    assert(fs.push(f).drop_last() =~= fs);
}

/// Clamp to the range of `isize`: the engine's indentation and column
/// arithmetic saturates rather than overflowing.
pub open spec fn sat(x: int) -> int {
    if x > isize::MAX {
        isize::MAX as int
    } else if x < isize::MIN {
        isize::MIN as int
    } else {
        x
    }
}

/// Indentation actually emitted after a newline: never below zero.
pub open spec fn clamp0(i: int) -> int {
    if i < 0 {
        0
    } else {
        i
    }
}

pub open spec fn spaces(n: nat) -> Seq<char> {
    Seq::new(n, |k: int| ' ')
}

/// A newline followed by the (clamped) indentation.
pub open spec fn newline(indent: int) -> Seq<char> {
    seq!['\n'] + spaces(clamp0(indent) as nat)
}

/// Does the rest of the current line fit in `rem` columns? The top frames
/// are the group being tested, laid flat; below them lies what follows. The
/// scan stops at the first break-mode line break (fits), or as soon as the
/// width is exhausted or a flat hard line is met (does not fit). A group
/// keeps the mode of the frame it stands in: inside the tested group it is
/// flat; a following group is scanned broken, which ends the line at its
/// first break exactly when that group is itself broken, and otherwise at
/// a point no later than its flat form would.
pub open spec fn fits(rem: int, fs: Seq<SFrame>) -> bool
    decreases stack_size(fs),
{
    if rem < 0 {
        false
    } else if fs.len() == 0 {
        true
    } else {
        let f = fs.last();
        let rest = fs.drop_last();
        proof {
            assert(stack_size(fs) == size(f.doc) + stack_size(rest));
        }
        match f.doc {
            DocV::Nil => fits(rem, rest),
            DocV::Text(s) => fits(rem - s.len(), rest),
            DocV::Line => if f.flat {
                fits(rem - 1, rest)
            } else {
                true
            },
            DocV::SoftLine => if f.flat {
                fits(rem, rest)
            } else {
                true
            },
            DocV::HardLine => !f.flat,
            DocV::Cat(a, b) => {
                let r1 = rest.push(frame(f.indent, f.flat, *b));
                let r2 = r1.push(frame(f.indent, f.flat, *a));
                proof {
                    lemma_stack_size_push(rest, frame(f.indent, f.flat, *b));
                    lemma_stack_size_push(r1, frame(f.indent, f.flat, *a));
                }
                fits(rem, r2)
            },
            DocV::Nest(j, x) => {
                let r1 = rest.push(frame(sat(f.indent + j), f.flat, *x));
                proof {
                    lemma_stack_size_push(rest, frame(sat(f.indent + j), f.flat, *x));
                }
                fits(rem, r1)
            },
            DocV::Group(x) => {
                let r1 = rest.push(frame(f.indent, f.flat, *x));
                proof {
                    lemma_stack_size_push(rest, frame(f.indent, f.flat, *x));
                }
                fits(rem, r1)
            },
        }
    }
}

/// The text produced by laying out the stack `fs` at target width `w`, with
/// the current line already `col` columns long. A group met in broken mode is
/// laid flat exactly when `fits` says its flat form and what follows it fit
/// the rest of the line; everything inside a flat group is flat.
pub open spec fn layout(w: int, col: int, fs: Seq<SFrame>) -> Seq<char>
    decreases stack_size(fs),
{
    if fs.len() == 0 {
        seq![]
    } else {
        let f = fs.last();
        let rest = fs.drop_last();
        proof {
            assert(stack_size(fs) == size(f.doc) + stack_size(rest));
        }
        match f.doc {
            DocV::Nil => layout(w, col, rest),
            DocV::Text(s) => s + layout(w, sat(col + s.len()), rest),
            DocV::Line => if f.flat {
                seq![' '] + layout(w, sat(col + 1), rest)
            } else {
                newline(f.indent) + layout(w, clamp0(f.indent), rest)
            },
            DocV::SoftLine => if f.flat {
                layout(w, col, rest)
            } else {
                newline(f.indent) + layout(w, clamp0(f.indent), rest)
            },
            DocV::HardLine => newline(f.indent) + layout(w, clamp0(f.indent), rest),
            DocV::Cat(a, b) => {
                let r1 = rest.push(frame(f.indent, f.flat, *b));
                let r2 = r1.push(frame(f.indent, f.flat, *a));
                proof {
                    lemma_stack_size_push(rest, frame(f.indent, f.flat, *b));
                    lemma_stack_size_push(r1, frame(f.indent, f.flat, *a));
                }
                layout(w, col, r2)
            },
            DocV::Nest(j, x) => {
                let r1 = rest.push(frame(sat(f.indent + j), f.flat, *x));
                proof {
                    lemma_stack_size_push(rest, frame(sat(f.indent + j), f.flat, *x));
                }
                layout(w, col, r1)
            },
            DocV::Group(x) => {
                let m = f.flat || fits(w - col, rest.push(frame(f.indent, true, *x)));
                let r1 = rest.push(frame(f.indent, m, *x));
                proof {
                    lemma_stack_size_push(rest, frame(f.indent, m, *x));
                }
                layout(w, col, r1)
            },
        }
    }
}

/// The width the engine works with: the requested width, capped at
/// `isize::MAX` (no line can be longer than that anyway).
pub open spec fn target(width: usize) -> int {
    if width > isize::MAX {
        isize::MAX as int
    } else {
        width as int
    }
}

/// What rendering `d` at `width` produces: the root starts at column 0,
/// indentation 0, in broken mode.
pub open spec fn spec_render(d: DocV, width: usize) -> Seq<char> {
    layout(target(width), 0, seq![frame(0, false, d)])
}

/// The one-line form of a document: every `line` a space, every `softline`
/// nothing, indentation and grouping ignored.
pub open spec fn flat(d: DocV) -> Seq<char>
    decreases d,
{
    match d {
        DocV::Nil => seq![],
        DocV::Text(s) => s,
        DocV::Line => seq![' '],
        DocV::SoftLine => seq![],
        DocV::HardLine => seq!['\n'],
        DocV::Cat(a, b) => flat(*a) + flat(*b),
        DocV::Nest(_, x) => flat(*x),
        DocV::Group(x) => flat(*x),
    }
}

/// Does the document contain a hard line anywhere?
pub open spec fn has_hardline(d: DocV) -> bool
    decreases d,
{
    match d {
        DocV::HardLine => true,
        DocV::Cat(a, b) => has_hardline(*a) || has_hardline(*b),
        DocV::Nest(_, x) => has_hardline(*x),
        DocV::Group(x) => has_hardline(*x),
        _ => false,
    }
}

/// Does the document offer any line break at all (flexible or hard)?
pub open spec fn has_break(d: DocV) -> bool
    decreases d,
{
    match d {
        DocV::Line => true,
        DocV::SoftLine => true,
        DocV::HardLine => true,
        DocV::Cat(a, b) => has_break(*a) || has_break(*b),
        DocV::Nest(_, x) => has_break(*x),
        DocV::Group(x) => has_break(*x),
        _ => false,
    }
}

/// Does the document contain a group anywhere?
pub open spec fn has_group(d: DocV) -> bool
    decreases d,
{
    match d {
        DocV::Group(_) => true,
        DocV::Cat(a, b) => has_group(*a) || has_group(*b),
        DocV::Nest(_, x) => has_group(*x),
        _ => false,
    }
}

/// Number of newline characters in a string.
pub open spec fn newline_count(s: Seq<char>) -> nat
    decreases s.len(),
{
    if s.len() == 0 {
        0
    } else {
        newline_count(s.drop_last()) + if s.last() == '\n' {
            1nat
        } else {
            0nat
        }
    }
}

/// A string with its spaces and newlines removed.
pub open spec fn strip(s: Seq<char>) -> Seq<char>
    decreases s.len(),
{
    if s.len() == 0 {
        seq![]
    } else if s.last() == ' ' || s.last() == '\n' {
        strip(s.drop_last())
    } else {
        strip(s.drop_last()).push(s.last())
    }
}

/// The text leaves of a document, concatenated in order.
pub open spec fn texts(d: DocV) -> Seq<char>
    decreases d,
{
    match d {
        DocV::Text(s) => s,
        DocV::Cat(a, b) => texts(*a) + texts(*b),
        DocV::Nest(_, x) => texts(*x),
        DocV::Group(x) => texts(*x),
        _ => seq![],
    }
}

/// Number of hard-line leaves.
pub open spec fn hardline_count(d: DocV) -> nat
    decreases d,
{
    match d {
        DocV::HardLine => 1,
        DocV::Cat(a, b) => hardline_count(*a) + hardline_count(*b),
        DocV::Nest(_, x) => hardline_count(*x),
        DocV::Group(x) => hardline_count(*x),
        _ => 0,
    }
}

/// Number of line-break leaves of any kind (`line`, `softline`, `hardline`).
pub open spec fn break_count(d: DocV) -> nat
    decreases d,
{
    match d {
        DocV::Line => 1,
        DocV::SoftLine => 1,
        DocV::HardLine => 1,
        DocV::Cat(a, b) => break_count(*a) + break_count(*b),
        DocV::Nest(_, x) => break_count(*x),
        DocV::Group(x) => break_count(*x),
        _ => 0,
    }
}

/// Does some text leaf contain a newline character?
pub open spec fn text_has_newline(d: DocV) -> bool
    decreases d,
{
    match d {
        DocV::Text(s) => s.contains('\n'),
        DocV::Cat(a, b) => text_has_newline(*a) || text_has_newline(*b),
        DocV::Nest(_, x) => text_has_newline(*x),
        DocV::Group(x) => text_has_newline(*x),
        _ => false,
    }
}

/// `Doc::concat`: a left fold of `Cat`, `Nil` for no items.
pub open spec fn concat_model(ds: Seq<DocV>) -> DocV
    decreases ds.len(),
{
    if ds.len() == 0 {
        DocV::Nil
    } else if ds.len() == 1 {
        ds[0]
    } else {
        DocV::Cat(Box::new(concat_model(ds.drop_last())), Box::new(ds.last()))
    }
}

/// `Doc::join`: items interspersed with `sep`, left-folded, `Nil` for no items.
pub open spec fn join_model(sep: DocV, ds: Seq<DocV>) -> DocV
    decreases ds.len(),
{
    if ds.len() == 0 {
        DocV::Nil
    } else if ds.len() == 1 {
        ds[0]
    } else {
        DocV::Cat(
            Box::new(DocV::Cat(Box::new(join_model(sep, ds.drop_last())), Box::new(sep))),
            Box::new(ds.last()),
        )
    }
}

/// Rust's `{:?}` form of a string: quoted, with escapes.
pub uninterp spec fn str_debug(s: Seq<char>) -> Seq<char>;

/// The decimal digit `d` (0 to 9) as a character.
pub open spec fn digit(d: int) -> char {
    (48 + d) as char
}

pub open spec fn digits(n: nat) -> Seq<char>
    decreases n,
{
    if n < 10 {
        seq![digit(n as int)]
    } else {
        digits(n / 10).push(digit((n % 10) as int))
    }
}

/// The decimal representation of an integer, with a leading `-` if negative.
pub open spec fn decimal(n: int) -> Seq<char> {
    if n < 0 {
        seq!['-'] + digits((-n) as nat)
    } else {
        digits(n as nat)
    }
}

/// The structural debug form of a document, such as
/// `Group(Cat(Text("a"), Line))`.
pub open spec fn debug_model(d: DocV) -> Seq<char>
    decreases d,
{
    match d {
        DocV::Nil => "Nil"@,
        DocV::Text(s) => "Text("@ + str_debug(s) + ")"@,
        DocV::Line => "Line"@,
        DocV::SoftLine => "SoftLine"@,
        DocV::HardLine => "HardLine"@,
        DocV::Cat(a, b) => "Cat("@ + debug_model(*a) + ", "@ + debug_model(*b) + ")"@,
        DocV::Nest(j, x) => "Nest("@ + decimal(j) + ", "@ + debug_model(*x) + ")"@,
        DocV::Group(x) => "Group("@ + debug_model(*x) + ")"@,
    }
}

/// Number of characters before the first newline (all of them if none).
pub open spec fn line_len(s: Seq<char>) -> nat
    decreases s.len(),
{
    if s.len() == 0 {
        0
    } else if s[0] == '\n' {
        0
    } else {
        1 + line_len(s.drop_first())
    }
}

/// The layout as the documentation describes it, with each group decided
/// directly by its rule rather than by a look-ahead scan: a group met in
/// broken mode is laid flat exactly when it holds no hard line and, laid
/// flat, the output line it starts on (up to the next newline, what follows
/// it included) is at most `w` columns. Texts are emitted verbatim, `nest`
/// adds to the indentation, a flat `line` is a space and a flat `softline`
/// nothing, every other break a newline and the indentation (at least 0).
pub open spec fn doc_layout(w: int, col: int, fs: Seq<SFrame>) -> Seq<char>
    decreases stack_size(fs),
{
    if fs.len() == 0 {
        seq![]
    } else {
        let f = fs.last();
        let rest = fs.drop_last();
        proof {
            assert(stack_size(fs) == size(f.doc) + stack_size(rest));
        }
        match f.doc {
            DocV::Nil => doc_layout(w, col, rest),
            DocV::Text(s) => s + doc_layout(w, sat(col + s.len()), rest),
            DocV::Line => if f.flat {
                seq![' '] + doc_layout(w, sat(col + 1), rest)
            } else {
                newline(f.indent) + doc_layout(w, clamp0(f.indent), rest)
            },
            DocV::SoftLine => if f.flat {
                doc_layout(w, col, rest)
            } else {
                newline(f.indent) + doc_layout(w, clamp0(f.indent), rest)
            },
            DocV::HardLine => newline(f.indent) + doc_layout(w, clamp0(f.indent), rest),
            DocV::Cat(a, b) => {
                let r1 = rest.push(frame(f.indent, f.flat, *b));
                let r2 = r1.push(frame(f.indent, f.flat, *a));
                proof {
                    lemma_stack_size_push(rest, frame(f.indent, f.flat, *b));
                    lemma_stack_size_push(r1, frame(f.indent, f.flat, *a));
                }
                doc_layout(w, col, r2)
            },
            DocV::Nest(j, x) => {
                let r1 = rest.push(frame(sat(f.indent + j), f.flat, *x));
                proof {
                    lemma_stack_size_push(rest, frame(sat(f.indent + j), f.flat, *x));
                }
                doc_layout(w, col, r1)
            },
            DocV::Group(x) => {
                let tried = rest.push(frame(f.indent, true, *x));
                proof {
                    lemma_stack_size_push(rest, frame(f.indent, true, *x));
                }
                let m = f.flat || (!has_hardline(*x) && col + line_len(doc_layout(w, col, tried))
                    <= w);
                let r1 = rest.push(frame(f.indent, m, *x));
                proof {
                    lemma_stack_size_push(rest, frame(f.indent, m, *x));
                }
                doc_layout(w, col, r1)
            },
        }
    }
}

/// Rendering as the documentation describes it: start at column 0,
/// indentation 0, outside any group (broken).
pub open spec fn spec_render_documented(d: DocV, width: usize) -> Seq<char> {
    doc_layout(target(width), 0, seq![frame(0, false, d)])
}

/// The broken form of a document at indentation `k`: texts verbatim, every
/// line break a newline and the indentation (at least 0), `nest` adding to
/// the indentation.
pub open spec fn broken_form(d: DocV, k: int) -> Seq<char>
    decreases d,
{
    match d {
        DocV::Nil => seq![],
        DocV::Text(s) => s,
        DocV::Line => newline(k),
        DocV::SoftLine => newline(k),
        DocV::HardLine => newline(k),
        DocV::Cat(a, b) => broken_form(*a, k) + broken_form(*b, k),
        DocV::Nest(j, x) => broken_form(*x, sat(k + j)),
        DocV::Group(x) => broken_form(*x, k),
    }
}

/// The text leaves of a document, one entry per leaf, in order.
pub open spec fn text_leaves(d: DocV) -> Seq<Seq<char>>
    decreases d,
{
    match d {
        DocV::Text(s) => seq![s],
        DocV::Cat(a, b) => text_leaves(*a) + text_leaves(*b),
        DocV::Nest(_, x) => text_leaves(*x),
        DocV::Group(x) => text_leaves(*x),
        _ => seq![],
    }
}

/// Only spaces and newlines.
pub open spec fn is_blank(s: Seq<char>) -> bool {
    forall|i: int| 0 <= i < s.len() ==> s[i] == ' ' || s[i] == '\n'
}

/// `out` is the texts `ts`, in order, with only spaces and newlines before,
/// between and after them.
pub open spec fn woven(out: Seq<char>, ts: Seq<Seq<char>>) -> bool
    decreases ts.len(),
{
    if ts.len() == 0 {
        is_blank(out)
    } else {
        exists|k: int|
            0 <= k && k + ts[0].len() <= out.len() && #[trigger] is_blank(out.take(k))
                && out.subrange(k, k + ts[0].len()) == ts[0] && woven(
                out.skip(k + ts[0].len()),
                ts.drop_first(),
            )
    }
}

} // verus!
