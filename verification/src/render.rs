//! The layout engine: lays a `Doc` out for a target width with an explicit
//! work stack (Wadler/Lindig), so deep documents never recurse.

use vstd::prelude::*;

use crate::doc::{lemma_unfold, Doc, Node};
use crate::model::{
    clamp0, fits, frame, layout, lemma_stack_size_push, newline, sat, size, spaces, spec_render,
    stack_size, target, SFrame,
};

verus! {

/// One pending piece of work: lay `doc` out at `indent`, flat or broken.
#[derive(Clone, Copy)]
pub(crate) struct Frame<'a> {
    pub(crate) indent: isize,
    pub(crate) flat: bool,
    pub(crate) doc: &'a Doc,
}

impl<'a> Frame<'a> {
    pub(crate) open spec fn sf(self) -> SFrame {
        frame(self.indent as int, self.flat, self.doc@)
    }
}

pub(crate) open spec fn sfs<'a>(s: Seq<Frame<'a>>) -> Seq<SFrame> {
    s.map_values(|f: Frame<'a>| f.sf())
}

/// `i + j`, saturating at the bounds of `isize`.
fn sat_add(i: isize, j: isize) -> (r: isize)
    ensures
        r as int == sat(i + j),
{
    if j > 0 && i > isize::MAX - j {
        isize::MAX
    } else if j < 0 && i < isize::MIN - j {
        isize::MIN
    } else {
        i + j
    }
}

/// `col + n` for a non-negative column, saturating at `isize::MAX`.
fn advance(col: isize, n: usize) -> (r: isize)
    requires
        0 <= col,
    ensures
        r as int == sat(col + n),
        0 <= r,
{
    if n > (isize::MAX - col) as usize {
        isize::MAX
    } else {
        col + n as isize
    }
}

/// Writes `n` spaces, in chunks of at most 32.
fn write_spaces(out: &mut String, n: usize)
    ensures
        final(out)@ == old(out)@ + spaces(n as nat),
{
    let chunk: &str = "                                ";
    proof {
        reveal_strlit("                                ");
        assert(chunk@ =~= spaces(32));
        assert(chunk.is_ascii());
    }
    let mut left = n;
    while left > 0
        invariant
            chunk@ == spaces(32),
            chunk.is_ascii(),
            left <= n,
            old(out)@ + spaces(n as nat) == out@ + spaces(left as nat),
        decreases left,
    {
        let take = if left < 32 {
            left
        } else {
            32
        };
        let piece = chunk.substring_ascii(0, take);
        out.append(piece);
        assert(piece@ =~= spaces(take as nat));
        assert(spaces(left as nat) =~= spaces(take as nat) + spaces((left - take) as nat));
        left = left - take;
    }
    assert(out@ + spaces(0) =~= out@);
}

/// Writes a newline and the (clamped) indentation; returns the new column.
fn new_line(out: &mut String, indent: isize) -> (col: isize)
    ensures
        final(out)@ == old(out)@ + newline(indent as int),
        col as int == clamp0(indent as int),
{
    let nl: &str = "\n";
    proof {
        reveal_strlit("\n");
    }
    out.append(nl);
    let n: isize = if indent < 0 {
        0
    } else {
        indent
    };
    write_spaces(out, n as usize);
    assert(old(out)@ + newline(indent as int) =~= old(out)@ + nl@ + spaces(n as nat));
    n
}

/// Does `x`, laid out flat at `indent`, fit in `avail` columns, followed by
/// the queued continuation `stack`? Scanning stops as soon as the answer is
/// known. Groups nested inside `x` are taken flat; a group queued after `x`
/// is scanned in the mode of the frame it stands in (broken at the top
/// level), so it ends the line at its first break.
fn fits_exec<'a>(avail: isize, indent: isize, x: &'a Doc, stack: &Vec<Frame<'a>>) -> (r: bool)
    ensures
        r == fits(avail as int, sfs(stack@).push(frame(indent as int, true, x@))),
{
    let ghost goal = fits(avail as int, sfs(stack@).push(frame(indent as int, true, x@)));
    if avail < 0 {
        return false;
    }
    let mut remaining: isize = avail;
    let mut local: Vec<Frame<'a>> = Vec::new();
    local.push(Frame { indent, flat: true, doc: x });
    let mut cont: usize = stack.len();
    assert(sfs(stack@.subrange(0, cont as int)) + sfs(local@) =~= sfs(stack@).push(
        frame(indent as int, true, x@),
    ));
    loop
        invariant
            0 <= remaining,
            cont <= stack@.len(),
            goal == fits(avail as int, sfs(stack@).push(frame(indent as int, true, x@))),
            goal == fits(remaining as int, sfs(stack@.subrange(0, cont as int)) + sfs(local@)),
        decreases stack_size(sfs(stack@.subrange(0, cont as int)) + sfs(local@)),
    {
        let ghost s0 = sfs(stack@.subrange(0, cont as int)) + sfs(local@);
        let ghost size0 = stack_size(s0);
        let f = match local.pop() {
            Some(f) => f,
            None => {
                if cont == 0 {
                    assert(s0 =~= Seq::<SFrame>::empty());
                    assert(fits(remaining as int, s0));
                    return true;
                }
                cont = cont - 1;
                stack[cont]
            },
        };
        let ghost rest = sfs(stack@.subrange(0, cont as int)) + sfs(local@);
        assert(s0.last() == f.sf() && s0.drop_last() =~= rest);
        let ghost rem0 = remaining as int;
        assert(stack_size(s0) == size(f.doc@) + stack_size(rest));
        let ghost i = f.indent as int;
        let ghost m = f.flat;
        proof {
            lemma_unfold(f.doc);
        }
        match &f.doc.0 {
            None => {
                assert(goal == fits(rem0, rest));
            },
            Some(rc) => match &**rc {
                Node::Text(l) => {
                    let wd = l.width();
                    assert(goal == fits(rem0 - wd, rest));
                    if wd > remaining as usize {
                        assert(!fits(rem0 - wd, rest));
                        return false;
                    }
                    remaining = remaining - wd as isize;
                },
                Node::Cat(a, b) => {
                    assert(goal == fits(rem0, rest.push(frame(i, m, b@)).push(frame(i, m, a@))));
                    local.push(Frame { indent: f.indent, flat: f.flat, doc: b });
                    local.push(Frame { indent: f.indent, flat: f.flat, doc: a });
                    assert(sfs(stack@.subrange(0, cont as int)) + sfs(local@) =~= rest.push(
                        frame(i, m, b@),
                    ).push(frame(i, m, a@)));
                    proof {
                        lemma_stack_size_push(rest, frame(i, m, b@));
                        lemma_stack_size_push(rest.push(frame(i, m, b@)), frame(i, m, a@));
                    }
                },
                Node::Nest(j, y) => {
                    let k = sat_add(f.indent, *j);
                    assert(goal == fits(rem0, rest.push(frame(k as int, m, y@))));
                    local.push(Frame { indent: k, flat: f.flat, doc: y });
                    assert(sfs(stack@.subrange(0, cont as int)) + sfs(local@) =~= rest.push(
                        frame(k as int, m, y@),
                    ));
                    proof {
                        lemma_stack_size_push(rest, frame(k as int, m, y@));
                    }
                },
                Node::Line => {
                    if f.flat {
                        assert(goal == fits(rem0 - 1, rest));
                        if remaining == 0 {
                            return false;
                        }
                        remaining = remaining - 1;
                    } else {
                        return true;
                    }
                },
                Node::SoftLine => {
                    if !f.flat {
                        return true;
                    }
                    assert(goal == fits(rem0, rest));
                },
                Node::HardLine => {
                    return !f.flat;
                },
                Node::Group(y) => {
                    assert(goal == fits(rem0, rest.push(frame(i, m, y@))));
                    local.push(Frame { indent: f.indent, flat: f.flat, doc: y });
                    assert(sfs(stack@.subrange(0, cont as int)) + sfs(local@) =~= rest.push(
                        frame(i, m, y@),
                    ));
                    proof {
                        lemma_stack_size_push(rest, frame(i, m, y@));
                    }
                },
            },
        }
    }
}

/// Lays `root` out to `width` columns, appending the text to `out`.
pub(crate) fn layout_exec(root: &Doc, width: usize, out: &mut String)
    ensures
        final(out)@ == old(out)@ + spec_render(root@, width),
{
    let w: isize = if width > isize::MAX as usize {
        isize::MAX
    } else {
        width as isize
    };
    let ghost goal = old(out)@ + spec_render(root@, width);
    let mut col: isize = 0;
    let mut stack: Vec<Frame> = Vec::new();
    stack.push(Frame { indent: 0, flat: false, doc: root });
    assert(sfs(stack@) =~= seq![frame(0, false, root@)]);
    while stack.len() > 0
        invariant
            0 <= col,
            0 <= w,
            w as int == target(width),
            goal == old(out)@ + spec_render(root@, width),
            goal == out@ + layout(w as int, col as int, sfs(stack@)),
        decreases stack_size(sfs(stack@)),
    {
        let ghost s0 = sfs(stack@);
        let ghost out0 = out@;
        let ghost c0 = col as int;
        let f = stack.pop().unwrap();
        let ghost rest = sfs(stack@);
        assert(s0.last() == f.sf() && s0.drop_last() =~= rest);
        assert(stack_size(s0) == size(f.doc@) + stack_size(rest));
        let ghost i = f.indent as int;
        let ghost m = f.flat;
        proof {
            lemma_unfold(f.doc);
        }
        match &f.doc.0 {
            None => {
                assert(layout(w as int, c0, s0) == layout(w as int, c0, rest));
            },
            Some(rc) => match &**rc {
                Node::Text(l) => {
                    let s = l.as_str();
                    assert(layout(w as int, c0, s0) == s@ + layout(w as int, sat(c0 + s@.len()), rest));
                    out.append(s);
                    col = advance(col, l.width());
                    assert(out0 + layout(w as int, c0, s0) =~= out@ + layout(w as int, col as int, rest));
                },
                Node::Cat(a, b) => {
                    stack.push(Frame { indent: f.indent, flat: f.flat, doc: b });
                    stack.push(Frame { indent: f.indent, flat: f.flat, doc: a });
                    assert(sfs(stack@) =~= rest.push(frame(i, m, b@)).push(frame(i, m, a@)));
                    proof {
                        lemma_stack_size_push(rest, frame(i, m, b@));
                        lemma_stack_size_push(rest.push(frame(i, m, b@)), frame(i, m, a@));
                    }
                },
                Node::Nest(j, y) => {
                    let k = sat_add(f.indent, *j);
                    stack.push(Frame { indent: k, flat: f.flat, doc: y });
                    assert(sfs(stack@) =~= rest.push(frame(k as int, m, y@)));
                    proof {
                        lemma_stack_size_push(rest, frame(k as int, m, y@));
                    }
                },
                Node::Line => {
                    if f.flat {
                        let sp: &str = " ";
                        proof {
                            reveal_strlit(" ");
                        }
                        out.append(sp);
                        col = advance(col, 1);
                        assert(out0 + layout(w as int, c0, s0) =~= out@ + layout(w as int, col as int, rest));
                    } else {
                        col = new_line(out, f.indent);
                        assert(out0 + layout(w as int, c0, s0) =~= out@ + layout(w as int, col as int, rest));
                    }
                },
                Node::SoftLine => {
                    if !f.flat {
                        col = new_line(out, f.indent);
                        assert(out0 + layout(w as int, c0, s0) =~= out@ + layout(w as int, col as int, rest));
                    }
                },
                Node::HardLine => {
                    col = new_line(out, f.indent);
                    assert(out0 + layout(w as int, c0, s0) =~= out@ + layout(w as int, col as int, rest));
                },
                Node::Group(y) => {
                    let flat = if f.flat {
                        true
                    } else {
                        let avail: isize = if w < col {
                            -1
                        } else {
                            w - col
                        };
                        fits_exec(avail, f.indent, y, &stack)
                    };
                    assert(flat == (m || fits(w - c0, rest.push(frame(i, true, y@)))));
                    stack.push(Frame { indent: f.indent, flat, doc: y });
                    assert(sfs(stack@) =~= rest.push(frame(i, flat, y@)));
                    proof {
                        lemma_stack_size_push(rest, frame(i, flat, y@));
                    }
                },
            },
        }
    }
    assert(out@ + layout(w as int, col as int, sfs(stack@)) =~= out@);
}

} // verus!
