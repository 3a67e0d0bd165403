//! Properties of rendering that hold for every document and width.

use vstd::prelude::*;

use crate::model::{
    break_count, broken_form, clamp0, concat_model, decimal, digit, digits, doc_layout, fits,
    flat, frame, has_break, has_group, has_hardline, hardline_count, is_blank, join_model, layout,
    lemma_stack_size_push, line_len, newline, newline_count, sat, size, spaces, spec_render,
    spec_render_documented, stack_size, strip, target, text_has_newline, text_leaves, texts,
    woven, DocV, SFrame,
};

verus! {

// ---------------------------------------------------------------------------
// Normal form of a work stack: `Cat` frames expanded, `Nil` frames dropped.
// Layout and look-ahead depend on a stack only through this normal form.
// ---------------------------------------------------------------------------

spec fn norm(fs: Seq<SFrame>) -> Seq<SFrame>
    decreases stack_size(fs),
{
    if fs.len() == 0 {
        fs
    } else {
        let f = fs.last();
        let rest = fs.drop_last();
        proof {
            assert(stack_size(fs) == size(f.doc) + stack_size(rest));
        }
        match f.doc {
            DocV::Nil => norm(rest),
            DocV::Cat(a, b) => {
                let r1 = rest.push(frame(f.indent, f.flat, *b));
                let r2 = r1.push(frame(f.indent, f.flat, *a));
                proof {
                    lemma_stack_size_push(rest, frame(f.indent, f.flat, *b));
                    lemma_stack_size_push(r1, frame(f.indent, f.flat, *a));
                }
                norm(r2)
            },
            _ => norm(rest).push(f),
        }
    }
}

proof fn lemma_last(fs: Seq<SFrame>)
    requires
        fs.len() > 0,
    ensures
        stack_size(fs) == size(fs.last().doc) + stack_size(fs.drop_last()),
        fs =~= fs.drop_last().push(fs.last()),
{
}

proof fn lemma_cat_split(x: Seq<SFrame>, y: Seq<SFrame>)
    requires
        y.len() > 0,
    ensures
        (x + y).last() == y.last(),
        (x + y).drop_last() =~= x + y.drop_last(),
{
}

proof fn lemma_norm_concat(x: Seq<SFrame>, y: Seq<SFrame>)
    ensures
        norm(x + y) == norm(x) + norm(y),
    decreases stack_size(y),
{
    if y.len() == 0 {
        assert(x + y =~= x);
        assert(norm(x) + norm(y) =~= norm(x));
    } else {
        let f = y.last();
        let yr = y.drop_last();
        lemma_cat_split(x, y);
        lemma_last(y);
        match f.doc {
            DocV::Nil => {
                lemma_norm_concat(x, yr);
            },
            DocV::Cat(a, b) => {
                let y1 = yr.push(frame(f.indent, f.flat, *b));
                let y2 = y1.push(frame(f.indent, f.flat, *a));
                lemma_stack_size_push(yr, frame(f.indent, f.flat, *b));
                lemma_stack_size_push(y1, frame(f.indent, f.flat, *a));
                assert((x + yr).push(frame(f.indent, f.flat, *b)).push(frame(f.indent, f.flat, *a))
                    =~= x + y2);
                lemma_norm_concat(x, y2);
            },
            _ => {
                lemma_norm_concat(x, yr);
                assert(norm(x + y) == norm(x + yr).push(f));
                assert((norm(x) + norm(yr)).push(f) =~= norm(x) + norm(yr).push(f));
            },
        }
    }
}

proof fn lemma_norm_size(x: Seq<SFrame>)
    ensures
        stack_size(norm(x)) <= stack_size(x),
    decreases stack_size(x),
{
    if x.len() > 0 {
        let f = x.last();
        let rest = x.drop_last();
        lemma_last(x);
        match f.doc {
            DocV::Nil => {
                lemma_norm_size(rest);
            },
            DocV::Cat(a, b) => {
                let r1 = rest.push(frame(f.indent, f.flat, *b));
                let r2 = r1.push(frame(f.indent, f.flat, *a));
                lemma_stack_size_push(rest, frame(f.indent, f.flat, *b));
                lemma_stack_size_push(r1, frame(f.indent, f.flat, *a));
                lemma_norm_size(r2);
            },
            _ => {
                lemma_norm_size(rest);
                lemma_stack_size_push(norm(rest), f);
            },
        }
    }
}

proof fn lemma_norm_idem(x: Seq<SFrame>)
    ensures
        norm(norm(x)) == norm(x),
    decreases stack_size(x),
{
    if x.len() > 0 {
        let f = x.last();
        let rest = x.drop_last();
        lemma_last(x);
        match f.doc {
            DocV::Nil => {
                lemma_norm_idem(rest);
            },
            DocV::Cat(a, b) => {
                let r1 = rest.push(frame(f.indent, f.flat, *b));
                let r2 = r1.push(frame(f.indent, f.flat, *a));
                lemma_stack_size_push(rest, frame(f.indent, f.flat, *b));
                lemma_stack_size_push(r1, frame(f.indent, f.flat, *a));
                lemma_norm_idem(r2);
            },
            _ => {
                lemma_norm_idem(rest);
                let n = norm(rest).push(f);
                assert(n.last() == f);
                assert(n.drop_last() =~= norm(rest));
                assert(norm(n) == norm(norm(rest)).push(f));
            },
        }
    }
}

/// Pushing a frame onto a stack or onto its normal form normalises alike.
proof fn lemma_norm_push(rest: Seq<SFrame>, g: SFrame)
    ensures
        norm(rest.push(g)) == norm(norm(rest).push(g)),
        stack_size(norm(rest).push(g)) <= stack_size(rest.push(g)),
{
    assert(rest.push(g) =~= rest + seq![g]);
    assert(norm(rest).push(g) =~= norm(rest) + seq![g]);
    lemma_norm_concat(rest, seq![g]);
    lemma_norm_concat(norm(rest), seq![g]);
    lemma_norm_idem(rest);
    lemma_norm_size(rest);
    lemma_stack_size_push(rest, g);
    lemma_stack_size_push(norm(rest), g);
}

/// The look-ahead depends on the stack only through its normal form.
proof fn lemma_fits_norm(r: int, fs: Seq<SFrame>)
    ensures
        fits(r, fs) == fits(r, norm(fs)),
    decreases stack_size(fs),
{
    if r >= 0 && fs.len() > 0 {
        let f = fs.last();
        let rest = fs.drop_last();
        lemma_last(fs);
        let n = norm(rest).push(f);
        assert(n.last() == f);
        assert(n.drop_last() =~= norm(rest));
        lemma_norm_size(rest);
        lemma_stack_size_push(norm(rest), f);
        match f.doc {
            DocV::Nil => {
                lemma_fits_norm(r, rest);
            },
            DocV::Text(s) => {
                lemma_fits_norm(r - s.len(), rest);
            },
            DocV::Line => {
                lemma_fits_norm(r - 1, rest);
            },
            DocV::SoftLine => {
                lemma_fits_norm(r, rest);
            },
            DocV::HardLine => {},
            DocV::Cat(a, b) => {
                let r1 = rest.push(frame(f.indent, f.flat, *b));
                let r2 = r1.push(frame(f.indent, f.flat, *a));
                lemma_stack_size_push(rest, frame(f.indent, f.flat, *b));
                lemma_stack_size_push(r1, frame(f.indent, f.flat, *a));
                lemma_fits_norm(r, r2);
            },
            DocV::Nest(j, x) => {
                let g = frame(sat(f.indent + j), f.flat, *x);
                lemma_stack_size_push(rest, g);
                lemma_norm_push(rest, g);
                lemma_fits_norm(r, rest.push(g));
                lemma_fits_norm(r, norm(rest).push(g));
            },
            DocV::Group(x) => {
                let g = frame(f.indent, f.flat, *x);
                lemma_stack_size_push(rest, g);
                lemma_norm_push(rest, g);
                lemma_fits_norm(r, rest.push(g));
                lemma_fits_norm(r, norm(rest).push(g));
            },
        }
    }
}

/// Layout depends on the stack only through its normal form.
proof fn lemma_layout_norm(w: int, col: int, fs: Seq<SFrame>)
    ensures
        layout(w, col, fs) == layout(w, col, norm(fs)),
    decreases stack_size(fs),
{
    if fs.len() > 0 {
        let f = fs.last();
        let rest = fs.drop_last();
        lemma_last(fs);
        let n = norm(rest).push(f);
        assert(n.last() == f);
        assert(n.drop_last() =~= norm(rest));
        lemma_norm_size(rest);
        lemma_stack_size_push(norm(rest), f);
        match f.doc {
            DocV::Nil => {
                lemma_layout_norm(w, col, rest);
            },
            DocV::Text(s) => {
                lemma_layout_norm(w, sat(col + s.len()), rest);
            },
            DocV::Line => {
                lemma_layout_norm(w, sat(col + 1), rest);
                lemma_layout_norm(w, if f.indent < 0 { 0 } else { f.indent }, rest);
            },
            DocV::SoftLine => {
                lemma_layout_norm(w, col, rest);
                lemma_layout_norm(w, if f.indent < 0 { 0 } else { f.indent }, rest);
            },
            DocV::HardLine => {
                lemma_layout_norm(w, if f.indent < 0 { 0 } else { f.indent }, rest);
            },
            DocV::Cat(a, b) => {
                let r1 = rest.push(frame(f.indent, f.flat, *b));
                let r2 = r1.push(frame(f.indent, f.flat, *a));
                lemma_stack_size_push(rest, frame(f.indent, f.flat, *b));
                lemma_stack_size_push(r1, frame(f.indent, f.flat, *a));
                lemma_layout_norm(w, col, r2);
            },
            DocV::Nest(j, x) => {
                let g = frame(sat(f.indent + j), f.flat, *x);
                lemma_stack_size_push(rest, g);
                lemma_norm_push(rest, g);
                lemma_layout_norm(w, col, rest.push(g));
                lemma_layout_norm(w, col, norm(rest).push(g));
            },
            DocV::Group(x) => {
                let gf = frame(f.indent, true, *x);
                lemma_norm_push(rest, gf);
                lemma_fits_norm(w - col, rest.push(gf));
                lemma_fits_norm(w - col, norm(rest).push(gf));
                let m = f.flat || fits(w - col, rest.push(gf));
                assert(m == (f.flat || fits(w - col, norm(rest).push(gf))));
                let g = frame(f.indent, m, *x);
                lemma_stack_size_push(rest, g);
                lemma_norm_push(rest, g);
                lemma_layout_norm(w, col, rest.push(g));
                lemma_layout_norm(w, col, norm(rest).push(g));
            },
        }
    }
}

proof fn lemma_single(f: SFrame)
    ensures
        seq![f].last() == f,
        seq![f].drop_last() =~= Seq::<SFrame>::empty(),
        Seq::<SFrame>::empty().push(f) =~= seq![f],
{
}

/// The first step of rendering a concatenation: both halves queued.
proof fn lemma_render_cat(a: DocV, b: DocV, width: usize)
    ensures
        spec_render(DocV::Cat(Box::new(a), Box::new(b)), width) == layout(
            target(width),
            0,
            seq![frame(0, false, b), frame(0, false, a)],
        ),
{
    let f = frame(0, false, DocV::Cat(Box::new(a), Box::new(b)));
    lemma_single(f);
    assert(Seq::<SFrame>::empty().push(frame(0, false, b)).push(frame(0, false, a)) =~= seq![
        frame(0, false, b),
        frame(0, false, a),
    ]);
}

/// The normal form of a stack of two frames.
proof fn lemma_norm_pair(x: SFrame, y: SFrame)
    ensures
        norm(seq![x, y]) == norm(seq![x]) + norm(seq![y]),
{
    assert(seq![x, y] =~= seq![x] + seq![y]);
    lemma_norm_concat(seq![x], seq![y]);
}

/// Concatenation is associative under rendering: how appends are nested does
/// not change the output.
pub proof fn law_append_associative(a: DocV, b: DocV, c: DocV, width: usize)
    ensures
        spec_render(
            DocV::Cat(Box::new(DocV::Cat(Box::new(a), Box::new(b))), Box::new(c)),
            width,
        ) == spec_render(
            DocV::Cat(Box::new(a), Box::new(DocV::Cat(Box::new(b), Box::new(c)))),
            width,
        ),
{
    let w = target(width);
    let ab = DocV::Cat(Box::new(a), Box::new(b));
    let bc = DocV::Cat(Box::new(b), Box::new(c));
    let fa = frame(0, false, a);
    let fb = frame(0, false, b);
    let fc = frame(0, false, c);
    lemma_render_cat(ab, c, width);
    lemma_render_cat(a, bc, width);
    let left = seq![fc, frame(0, false, ab)];
    let right = seq![frame(0, false, bc), fa];
    lemma_layout_norm(w, 0, left);
    lemma_layout_norm(w, 0, right);
    // Left: the `ab` frame expands to `b` then `a` on top of `c`.
    assert(left.last() == frame(0, false, ab));
    assert(left.drop_last() =~= seq![fc]);
    assert(seq![fc].push(fb).push(fa) =~= seq![fc, fb] + seq![fa]);
    lemma_norm_concat(seq![fc, fb], seq![fa]);
    lemma_norm_pair(fc, fb);
    // Right: `bc` below `a`.
    lemma_norm_pair(frame(0, false, bc), fa);
    lemma_single(frame(0, false, bc));
    assert(Seq::<SFrame>::empty().push(fc).push(fb) =~= seq![fc, fb]);
    assert(norm(left) == norm(seq![fc, fb]) + norm(seq![fa]));
    assert(norm(seq![frame(0, false, bc)]) == norm(seq![fc, fb]));
    assert(norm(right) == norm(seq![fc, fb]) + norm(seq![fa]));
}

/// The empty document is the identity of `append` on both sides.
pub proof fn law_nil_is_append_identity(a: DocV, width: usize)
    ensures
        spec_render(DocV::Cat(Box::new(a), Box::new(DocV::Nil)), width) == spec_render(a, width),
        spec_render(DocV::Cat(Box::new(DocV::Nil), Box::new(a)), width) == spec_render(a, width),
{
    let w = target(width);
    let fa = frame(0, false, a);
    let fnil = frame(0, false, DocV::Nil);
    lemma_render_cat(a, DocV::Nil, width);
    lemma_render_cat(DocV::Nil, a, width);
    lemma_layout_norm(w, 0, seq![fnil, fa]);
    lemma_layout_norm(w, 0, seq![fa, fnil]);
    lemma_layout_norm(w, 0, seq![fa]);
    lemma_norm_pair(fnil, fa);
    lemma_norm_pair(fa, fnil);
    lemma_single(fnil);
    assert(norm(seq![fnil]) == norm(Seq::<SFrame>::empty()));
    assert(norm(Seq::<SFrame>::empty()) =~= Seq::<SFrame>::empty());
    assert(norm(seq![fnil]) + norm(seq![fa]) =~= norm(seq![fa]));
    assert(norm(seq![fa]) + norm(seq![fnil]) =~= norm(seq![fa]));
}

/// Grouping is idempotent: a group around a group renders as the inner group.
pub proof fn law_group_idempotent(d: DocV, width: usize)
    ensures
        spec_render(DocV::Group(Box::new(DocV::Group(Box::new(d)))), width) == spec_render(
            DocV::Group(Box::new(d)),
            width,
        ),
{
    let w = target(width);
    let gd = DocV::Group(Box::new(d));
    let ggd = DocV::Group(Box::new(gd));
    lemma_single(frame(0, false, ggd));
    lemma_single(frame(0, false, gd));
    lemma_single(frame(0, true, gd));
    lemma_single(frame(0, true, d));
    let m2 = fits(w, seq![frame(0, true, d)]);
    let m1 = fits(w, seq![frame(0, true, gd)]);
    assert(m1 == m2);
    lemma_single(frame(0, m1, gd));
    assert(layout(w, 0, seq![frame(0, m1, gd)]) == layout(w, 0, seq![frame(0, m2, d)]));
}

/// Indentation is relative and additive: a `nest(j)` inside a `nest(i)`
/// indents like a single `nest(i + j)`.
pub proof fn law_nest_is_additive(d: DocV, i: int, j: int, width: usize)
    requires
        isize::MIN <= i <= isize::MAX,
        isize::MIN <= j <= isize::MAX,
        isize::MIN <= i + j <= isize::MAX,
    ensures
        spec_render(DocV::Nest(i, Box::new(DocV::Nest(j, Box::new(d)))), width) == spec_render(
            DocV::Nest(i + j, Box::new(d)),
            width,
        ),
{
    let inner = DocV::Nest(j, Box::new(d));
    lemma_single(frame(0, false, DocV::Nest(i, Box::new(inner))));
    lemma_single(frame(i, false, inner));
    lemma_single(frame(0, false, DocV::Nest(i + j, Box::new(d))));
    lemma_single(frame(i + j, false, d));
    let w = target(width);
    assert(sat(0 + i) == i);
    assert(sat(i + j) == i + j);
    assert(sat(0 + (i + j)) == i + j);
    assert(layout(w, 0, seq![frame(i, false, inner)]) == layout(w, 0, seq![frame(i + j, false, d)]));
    assert(spec_render(DocV::Nest(i, Box::new(inner)), width) == layout(w, 0, seq![frame(i, false, inner)]));
    assert(spec_render(DocV::Nest(i + j, Box::new(d)), width) == layout(w, 0, seq![frame(i + j, false, d)]));
}

// ---------------------------------------------------------------------------
// Flat layouts.
// ---------------------------------------------------------------------------

/// The one-line text of every frame, top first.
spec fn flat_seq(fs: Seq<SFrame>) -> Seq<char>
    decreases fs.len(),
{
    if fs.len() == 0 {
        seq![]
    } else {
        flat(fs.last().doc) + flat_seq(fs.drop_last())
    }
}

/// Every frame is flat and holds no hard line.
spec fn all_flat(fs: Seq<SFrame>) -> bool
    decreases fs.len(),
{
    if fs.len() == 0 {
        true
    } else {
        fs.last().flat && !has_hardline(fs.last().doc) && all_flat(fs.drop_last())
    }
}

/// No frame offers a line break.
spec fn no_break(fs: Seq<SFrame>) -> bool
    decreases fs.len(),
{
    if fs.len() == 0 {
        true
    } else {
        !has_break(fs.last().doc) && no_break(fs.drop_last())
    }
}

proof fn lemma_push_facts(fs: Seq<SFrame>, g: SFrame)
    ensures
        flat_seq(fs.push(g)) == flat(g.doc) + flat_seq(fs),
        all_flat(fs.push(g)) == (g.flat && !has_hardline(g.doc) && all_flat(fs)),
        no_break(fs.push(g)) == (!has_break(g.doc) && no_break(fs)),
        stack_size(fs.push(g)) == size(g.doc) + stack_size(fs),
{
    assert(fs.push(g).drop_last() =~= fs);
    assert(fs.push(g).last() == g);
}

/// A flat, hard-line-free stack fits exactly in the widths at least as wide
/// as its one-line text.
proof fn lemma_fits_flat(r: int, fs: Seq<SFrame>)
    requires
        all_flat(fs),
    ensures
        fits(r, fs) == (flat_seq(fs).len() <= r),
    decreases stack_size(fs),
{
    if fs.len() > 0 {
        let f = fs.last();
        let rest = fs.drop_last();
        lemma_last(fs);
        match f.doc {
            DocV::Nil => {
                lemma_fits_flat(r, rest);
            },
            DocV::Text(s) => {
                lemma_fits_flat(r - s.len(), rest);
            },
            DocV::Line => {
                lemma_fits_flat(r - 1, rest);
            },
            DocV::SoftLine => {
                lemma_fits_flat(r, rest);
            },
            DocV::HardLine => {},
            DocV::Cat(a, b) => {
                let gb = frame(f.indent, f.flat, *b);
                let ga = frame(f.indent, f.flat, *a);
                lemma_push_facts(rest, gb);
                lemma_push_facts(rest.push(gb), ga);
                assert(flat_seq(rest.push(gb).push(ga)) =~= flat_seq(fs));
                lemma_fits_flat(r, rest.push(gb).push(ga));
            },
            DocV::Nest(j, x) => {
                let g = frame(sat(f.indent + j), f.flat, *x);
                lemma_push_facts(rest, g);
                lemma_fits_flat(r, rest.push(g));
            },
            DocV::Group(x) => {
                let g = frame(f.indent, true, *x);
                lemma_push_facts(rest, g);
                lemma_fits_flat(r, rest.push(g));
            },
        }
    }
}

/// A flat, hard-line-free stack whose one-line text fits the rest of the
/// line is laid out as exactly that text.
proof fn lemma_layout_flat(w: int, col: int, fs: Seq<SFrame>)
    requires
        all_flat(fs),
        0 <= col,
        col + flat_seq(fs).len() <= w,
        w <= isize::MAX,
    ensures
        layout(w, col, fs) == flat_seq(fs),
    decreases stack_size(fs),
{
    if fs.len() > 0 {
        let f = fs.last();
        let rest = fs.drop_last();
        lemma_last(fs);
        match f.doc {
            DocV::Nil => {
                lemma_layout_flat(w, col, rest);
            },
            DocV::Text(s) => {
                lemma_layout_flat(w, col + s.len(), rest);
            },
            DocV::Line => {
                lemma_layout_flat(w, col + 1, rest);
            },
            DocV::SoftLine => {
                lemma_layout_flat(w, col, rest);
            },
            DocV::HardLine => {},
            DocV::Cat(a, b) => {
                let gb = frame(f.indent, f.flat, *b);
                let ga = frame(f.indent, f.flat, *a);
                lemma_push_facts(rest, gb);
                lemma_push_facts(rest.push(gb), ga);
                assert(flat_seq(rest.push(gb).push(ga)) =~= flat_seq(fs));
                lemma_layout_flat(w, col, rest.push(gb).push(ga));
            },
            DocV::Nest(j, x) => {
                let g = frame(sat(f.indent + j), f.flat, *x);
                lemma_push_facts(rest, g);
                lemma_layout_flat(w, col, rest.push(g));
            },
            DocV::Group(x) => {
                let g = frame(f.indent, true, *x);
                lemma_push_facts(rest, g);
                lemma_fits_flat(w - col, rest.push(g));
                lemma_layout_flat(w, col, rest.push(g));
            },
        }
    }
}

/// A stack without line breaks is laid out as its one-line text, whatever
/// the width: the engine never invents a break.
proof fn lemma_layout_no_break(w: int, col: int, fs: Seq<SFrame>)
    requires
        no_break(fs),
    ensures
        layout(w, col, fs) == flat_seq(fs),
    decreases stack_size(fs),
{
    if fs.len() > 0 {
        let f = fs.last();
        let rest = fs.drop_last();
        lemma_last(fs);
        match f.doc {
            DocV::Nil => {
                lemma_layout_no_break(w, col, rest);
            },
            DocV::Text(s) => {
                lemma_layout_no_break(w, sat(col + s.len()), rest);
            },
            DocV::Cat(a, b) => {
                let gb = frame(f.indent, f.flat, *b);
                let ga = frame(f.indent, f.flat, *a);
                lemma_push_facts(rest, gb);
                lemma_push_facts(rest.push(gb), ga);
                assert(flat_seq(rest.push(gb).push(ga)) =~= flat_seq(fs));
                lemma_layout_no_break(w, col, rest.push(gb).push(ga));
            },
            DocV::Nest(j, x) => {
                let g = frame(sat(f.indent + j), f.flat, *x);
                lemma_push_facts(rest, g);
                lemma_layout_no_break(w, col, rest.push(g));
            },
            DocV::Group(x) => {
                let m = f.flat || fits(w - col, rest.push(frame(f.indent, true, *x)));
                let g = frame(f.indent, m, *x);
                lemma_push_facts(rest, g);
                lemma_layout_no_break(w, col, rest.push(g));
            },
            _ => {},
        }
    }
}

proof fn lemma_flat_no_newline(d: DocV)
    requires
        !has_hardline(d),
        !text_has_newline(d),
    ensures
        !flat(d).contains('\n'),
    decreases d,
{
    match d {
        DocV::Cat(a, b) => {
            lemma_flat_no_newline(*a);
            lemma_flat_no_newline(*b);
            let fa = flat(*a);
            let fb = flat(*b);
            assert forall|k: int| 0 <= k < (fa + fb).len() implies (fa + fb)[k] != '\n' by {
                if k < fa.len() {
                    assert((fa + fb)[k] == fa[k]);
                } else {
                    assert((fa + fb)[k] == fb[k - fa.len()]);
                }
            }
        },
        DocV::Nest(_, x) => {
            lemma_flat_no_newline(*x);
        },
        DocV::Group(x) => {
            lemma_flat_no_newline(*x);
        },
        DocV::Line => {
            assert(flat(d)[0] != '\n');
        },
        _ => {},
    }
}

/// A grouped, hard-line-free document whose one-line form fits the width is
/// rendered as exactly that one line; if its texts hold no newline, neither
/// does the output. (A one-line form longer than `isize::MAX` characters
/// cannot exist in memory.)
pub proof fn law_grouped_fitting_is_flat(d: DocV, width: usize)
    requires
        !has_hardline(d),
        flat(d).len() <= width,
        flat(d).len() <= isize::MAX,
    ensures
        spec_render(DocV::Group(Box::new(d)), width) == flat(d),
        !text_has_newline(d) ==> !spec_render(DocV::Group(Box::new(d)), width).contains('\n'),
{
    let w = target(width);
    assert(flat(d).len() <= w);
    let g = DocV::Group(Box::new(d));
    lemma_single(frame(0, false, g));
    lemma_single(frame(0, true, d));
    lemma_push_facts(Seq::<SFrame>::empty(), frame(0, true, d));
    assert(flat_seq(seq![frame(0, true, d)]) =~= flat(d));
    lemma_fits_flat(w, seq![frame(0, true, d)]);
    lemma_layout_flat(w, 0, seq![frame(0, true, d)]);
    if !text_has_newline(d) {
        lemma_flat_no_newline(d);
    }
}

/// `nest` has no visible effect on a group that is laid out flat.
pub proof fn law_nest_invisible_when_flat(d: DocV, indent: int, width: usize)
    requires
        !has_hardline(d),
        flat(d).len() <= width,
        flat(d).len() <= isize::MAX,
    ensures
        spec_render(DocV::Group(Box::new(DocV::Nest(indent, Box::new(d)))), width) == spec_render(
            DocV::Group(Box::new(d)),
            width,
        ),
{
    law_grouped_fitting_is_flat(d, width);
    law_grouped_fitting_is_flat(DocV::Nest(indent, Box::new(d)), width);
}

/// A document that offers no line break renders verbatim at every width,
/// even when it is wider than the width.
pub proof fn law_no_break_is_verbatim(d: DocV, width: usize)
    requires
        !has_break(d),
    ensures
        spec_render(d, width) == flat(d),
{
    lemma_single(frame(0, false, d));
    lemma_push_facts(Seq::<SFrame>::empty(), frame(0, false, d));
    assert(flat_seq(seq![frame(0, false, d)]) =~= flat(d));
    lemma_layout_no_break(target(width), 0, seq![frame(0, false, d)]);
}

// ---------------------------------------------------------------------------
// Hard lines.
// ---------------------------------------------------------------------------

/// Every frame is flat.
spec fn all_flat_mode(fs: Seq<SFrame>) -> bool
    decreases fs.len(),
{
    if fs.len() == 0 {
        true
    } else {
        fs.last().flat && all_flat_mode(fs.drop_last())
    }
}

/// Some frame holds a hard line.
spec fn any_hard(fs: Seq<SFrame>) -> bool
    decreases fs.len(),
{
    if fs.len() == 0 {
        false
    } else {
        has_hardline(fs.last().doc) || any_hard(fs.drop_last())
    }
}

proof fn lemma_push_hard(fs: Seq<SFrame>, g: SFrame)
    ensures
        all_flat_mode(fs.push(g)) == (g.flat && all_flat_mode(fs)),
        any_hard(fs.push(g)) == (has_hardline(g.doc) || any_hard(fs)),
        stack_size(fs.push(g)) == size(g.doc) + stack_size(fs),
{
    assert(fs.push(g).drop_last() =~= fs);
    assert(fs.push(g).last() == g);
}

/// Flat frames holding a hard line never fit, whatever lies below them.
proof fn lemma_fits_hard(r: int, cont: Seq<SFrame>, top: Seq<SFrame>)
    requires
        all_flat_mode(top),
        any_hard(top),
    ensures
        !fits(r, cont + top),
    decreases stack_size(top),
{
    if r >= 0 {
        let f = top.last();
        let rest = top.drop_last();
        lemma_cat_split(cont, top);
        lemma_last(top);
        let hard = has_hardline(f.doc);
        match f.doc {
            DocV::Nil => {
                lemma_fits_hard(r, cont, rest);
            },
            DocV::Text(s) => {
                lemma_fits_hard(r - s.len(), cont, rest);
            },
            DocV::Line => {
                lemma_fits_hard(r - 1, cont, rest);
            },
            DocV::SoftLine => {
                lemma_fits_hard(r, cont, rest);
            },
            DocV::HardLine => {},
            DocV::Cat(a, b) => {
                let gb = frame(f.indent, f.flat, *b);
                let ga = frame(f.indent, f.flat, *a);
                lemma_push_hard(rest, gb);
                lemma_push_hard(rest.push(gb), ga);
                assert((cont + rest).push(gb).push(ga) =~= cont + rest.push(gb).push(ga));
                lemma_fits_hard(r, cont, rest.push(gb).push(ga));
            },
            DocV::Nest(j, x) => {
                let g = frame(sat(f.indent + j), f.flat, *x);
                lemma_push_hard(rest, g);
                assert((cont + rest).push(g) =~= cont + rest.push(g));
                lemma_fits_hard(r, cont, rest.push(g));
            },
            DocV::Group(x) => {
                let g = frame(f.indent, true, *x);
                lemma_push_hard(rest, g);
                assert((cont + rest).push(g) =~= cont + rest.push(g));
                lemma_fits_hard(r, cont, rest.push(g));
            },
        }
    }
}

/// A group that contains a hard line, directly or through nested groups, is
/// always broken: it renders as its contents would without the group.
pub proof fn law_hardline_breaks_group(d: DocV, width: usize)
    requires
        has_hardline(d),
    ensures
        spec_render(DocV::Group(Box::new(d)), width) == spec_render(d, width),
{
    let w = target(width);
    let g = DocV::Group(Box::new(d));
    lemma_single(frame(0, false, g));
    lemma_single(frame(0, true, d));
    lemma_push_hard(Seq::<SFrame>::empty(), frame(0, true, d));
    assert(Seq::<SFrame>::empty() + seq![frame(0, true, d)] =~= seq![frame(0, true, d)]);
    lemma_fits_hard(w, Seq::<SFrame>::empty(), seq![frame(0, true, d)]);
}

/// The look-ahead for a group holding a hard line, directly or in a nested
/// group, never succeeds, whatever the room and whatever follows.
pub proof fn law_group_with_hardline_never_fits(r: int, rest: Seq<SFrame>, i: int, x: DocV)
    requires
        has_hardline(x),
    ensures
        !fits(r, rest.push(frame(i, true, x))),
{
    lemma_push_hard(Seq::<SFrame>::empty(), frame(i, true, x));
    assert(rest + seq![frame(i, true, x)] =~= rest.push(frame(i, true, x)));
    assert(Seq::<SFrame>::empty().push(frame(i, true, x)) =~= seq![frame(i, true, x)]);
    lemma_fits_hard(r, rest, seq![frame(i, true, x)]);
}

/// More room never turns a fit into a misfit.
pub proof fn law_fits_monotone(a1: int, a2: int, fs: Seq<SFrame>)
    requires
        fits(a1, fs),
        a1 <= a2,
    ensures
        fits(a2, fs),
    decreases stack_size(fs),
{
    if fs.len() > 0 {
        let f = fs.last();
        let rest = fs.drop_last();
        lemma_last(fs);
        match f.doc {
            DocV::Nil => {
                law_fits_monotone(a1, a2, rest);
            },
            DocV::Text(s) => {
                law_fits_monotone(a1 - s.len(), a2 - s.len(), rest);
            },
            DocV::Line => {
                if f.flat {
                    law_fits_monotone(a1 - 1, a2 - 1, rest);
                }
            },
            DocV::SoftLine => {
                if f.flat {
                    law_fits_monotone(a1, a2, rest);
                }
            },
            DocV::HardLine => {},
            DocV::Cat(a, b) => {
                let gb = frame(f.indent, f.flat, *b);
                let ga = frame(f.indent, f.flat, *a);
                lemma_stack_size_push(rest, gb);
                lemma_stack_size_push(rest.push(gb), ga);
                law_fits_monotone(a1, a2, rest.push(gb).push(ga));
            },
            DocV::Nest(j, x) => {
                let g = frame(sat(f.indent + j), f.flat, *x);
                lemma_stack_size_push(rest, g);
                law_fits_monotone(a1, a2, rest.push(g));
            },
            DocV::Group(x) => {
                let g = frame(f.indent, f.flat, *x);
                lemma_stack_size_push(rest, g);
                law_fits_monotone(a1, a2, rest.push(g));
            },
        }
    }
}

/// With nothing after it, a hard-line-free group fits exactly when its
/// one-line form is no wider than the room: texts count their characters,
/// each `line` one column, everything else nothing.
pub proof fn law_fits_alone_is_flat_width(r: int, i: int, x: DocV)
    requires
        !has_hardline(x),
    ensures
        fits(r, seq![frame(i, true, x)]) == (flat(x).len() <= r),
{
    lemma_single(frame(i, true, x));
    lemma_push_facts(Seq::<SFrame>::empty(), frame(i, true, x));
    assert(flat_seq(seq![frame(i, true, x)]) =~= flat(x));
    lemma_fits_flat(r, seq![frame(i, true, x)]);
}

/// No frame holds a group.
spec fn no_group(fs: Seq<SFrame>) -> bool
    decreases fs.len(),
{
    if fs.len() == 0 {
        true
    } else {
        !has_group(fs.last().doc) && no_group(fs.drop_last())
    }
}

proof fn lemma_push_no_group(fs: Seq<SFrame>, g: SFrame)
    ensures
        no_group(fs.push(g)) == (!has_group(g.doc) && no_group(fs)),
        stack_size(fs.push(g)) == size(g.doc) + stack_size(fs),
{
    assert(fs.push(g).drop_last() =~= fs);
    assert(fs.push(g).last() == g);
}

/// Without groups the width is never consulted.
proof fn lemma_layout_group_free(w1: int, w2: int, col: int, fs: Seq<SFrame>)
    requires
        no_group(fs),
    ensures
        layout(w1, col, fs) == layout(w2, col, fs),
    decreases stack_size(fs),
{
    if fs.len() > 0 {
        let f = fs.last();
        let rest = fs.drop_last();
        lemma_last(fs);
        let ci = if f.indent < 0 { 0 } else { f.indent };
        match f.doc {
            DocV::Nil => {
                lemma_layout_group_free(w1, w2, col, rest);
            },
            DocV::Text(s) => {
                lemma_layout_group_free(w1, w2, sat(col + s.len()), rest);
            },
            DocV::Line => {
                lemma_layout_group_free(w1, w2, sat(col + 1), rest);
                lemma_layout_group_free(w1, w2, ci, rest);
            },
            DocV::SoftLine => {
                lemma_layout_group_free(w1, w2, col, rest);
                lemma_layout_group_free(w1, w2, ci, rest);
            },
            DocV::HardLine => {
                lemma_layout_group_free(w1, w2, ci, rest);
            },
            DocV::Cat(a, b) => {
                let gb = frame(f.indent, f.flat, *b);
                let ga = frame(f.indent, f.flat, *a);
                lemma_push_no_group(rest, gb);
                lemma_push_no_group(rest.push(gb), ga);
                lemma_layout_group_free(w1, w2, col, rest.push(gb).push(ga));
            },
            DocV::Nest(j, x) => {
                let g = frame(sat(f.indent + j), f.flat, *x);
                lemma_push_no_group(rest, g);
                lemma_layout_group_free(w1, w2, col, rest.push(g));
            },
            DocV::Group(_) => {},
        }
    }
}

/// A document without groups renders the same at every width: every break
/// takes its broken form.
pub proof fn law_group_free_ignores_width(d: DocV, w1: usize, w2: usize)
    requires
        !has_group(d),
    ensures
        spec_render(d, w1) == spec_render(d, w2),
{
    lemma_single(frame(0, false, d));
    lemma_push_no_group(Seq::<SFrame>::empty(), frame(0, false, d));
    lemma_layout_group_free(target(w1), target(w2), 0, seq![frame(0, false, d)]);
}

// ---------------------------------------------------------------------------
// The group decision is the documented rule: flat exactly when the group
// holds no hard line and, laid flat, the output line it starts on fits.
// ---------------------------------------------------------------------------

proof fn lemma_line_len_append(s: Seq<char>, t: Seq<char>)
    requires
        !s.contains('\n'),
    ensures
        line_len(s + t) == s.len() + line_len(t),
    decreases s.len(),
{
    if s.len() == 0 {
        assert(s + t =~= t);
    } else {
        assert((s + t)[0] == s[0]);
        assert((s + t).drop_first() =~= s.drop_first() + t);
        if s.drop_first().contains('\n') {
            let k = choose|k: int| 0 <= k < s.drop_first().len() && s.drop_first()[k] == '\n';
            assert(s[k + 1] == '\n');
        }
        lemma_line_len_append(s.drop_first(), t);
    }
}

proof fn lemma_line_len_newline(i: int, t: Seq<char>)
    ensures
        line_len(newline(i) + t) == 0,
{
    assert((newline(i) + t)[0] == '\n');
}

/// Flat frames hold no hard line (true of every stack the engine builds).
pub open spec fn flat_frames_hardline_free(fs: Seq<SFrame>) -> bool
    decreases fs.len(),
{
    if fs.len() == 0 {
        true
    } else {
        (fs.last().flat ==> !has_hardline(fs.last().doc)) && flat_frames_hardline_free(
            fs.drop_last(),
        )
    }
}

/// No text on the stack holds a newline.
pub open spec fn texts_newline_free(fs: Seq<SFrame>) -> bool
    decreases fs.len(),
{
    if fs.len() == 0 {
        true
    } else {
        !text_has_newline(fs.last().doc) && texts_newline_free(fs.drop_last())
    }
}

proof fn lemma_push_wf(fs: Seq<SFrame>, g: SFrame)
    ensures
        flat_frames_hardline_free(fs.push(g)) == ((g.flat ==> !has_hardline(g.doc))
            && flat_frames_hardline_free(fs)),
        texts_newline_free(fs.push(g)) == (!text_has_newline(g.doc) && texts_newline_free(fs)),
        stack_size(fs.push(g)) == size(g.doc) + stack_size(fs),
{
    assert(fs.push(g).drop_last() =~= fs);
    assert(fs.push(g).last() == g);
}

/// `s2` is `s1` with some flat frames turned broken.
spec fn less_flat(s1: Seq<SFrame>, s2: Seq<SFrame>) -> bool
    decreases s1.len(),
{
    if s1.len() != s2.len() {
        false
    } else if s1.len() == 0 {
        true
    } else {
        &&& s1.last().doc == s2.last().doc
        &&& s1.last().indent == s2.last().indent
        &&& (s2.last().flat ==> s1.last().flat)
        &&& less_flat(s1.drop_last(), s2.drop_last())
    }
}

proof fn lemma_less_flat_push(s1: Seq<SFrame>, s2: Seq<SFrame>, g1: SFrame, g2: SFrame)
    ensures
        less_flat(s1.push(g1), s2.push(g2)) == (g1.doc == g2.doc && g1.indent == g2.indent && (
        g2.flat ==> g1.flat) && less_flat(s1, s2)),
{
    assert(s1.push(g1).drop_last() =~= s1);
    assert(s2.push(g2).drop_last() =~= s2);
    if s1.len() != s2.len() {
        assert(!less_flat(s1, s2)) by {
            reveal_with_fuel(less_flat, 1);
        }
    }
}

proof fn lemma_less_flat_refl(s: Seq<SFrame>)
    ensures
        less_flat(s, s),
    decreases s.len(),
{
    if s.len() > 0 {
        lemma_less_flat_refl(s.drop_last());
    }
}

/// Breaking frames never turns a fit into a misfit: a broken frame ends the
/// line no later than its flat form would.
proof fn lemma_fits_less_flat(r: int, s1: Seq<SFrame>, s2: Seq<SFrame>)
    requires
        less_flat(s1, s2),
        fits(r, s1),
    ensures
        fits(r, s2),
    decreases stack_size(s1),
{
    if s1.len() > 0 {
        let f1 = s1.last();
        let f2 = s2.last();
        let r1 = s1.drop_last();
        let r2 = s2.drop_last();
        lemma_last(s1);
        match f1.doc {
            DocV::Nil => {
                lemma_fits_less_flat(r, r1, r2);
            },
            DocV::Text(s) => {
                lemma_fits_less_flat(r - s.len(), r1, r2);
            },
            DocV::Line => {
                if f2.flat {
                    lemma_fits_less_flat(r - 1, r1, r2);
                }
            },
            DocV::SoftLine => {
                if f2.flat {
                    lemma_fits_less_flat(r, r1, r2);
                }
            },
            DocV::HardLine => {},
            DocV::Cat(a, b) => {
                let b1 = frame(f1.indent, f1.flat, *b);
                let a1 = frame(f1.indent, f1.flat, *a);
                let b2 = frame(f2.indent, f2.flat, *b);
                let a2 = frame(f2.indent, f2.flat, *a);
                lemma_stack_size_push(r1, b1);
                lemma_stack_size_push(r1.push(b1), a1);
                lemma_less_flat_push(r1, r2, b1, b2);
                lemma_less_flat_push(r1.push(b1), r2.push(b2), a1, a2);
                lemma_fits_less_flat(r, r1.push(b1).push(a1), r2.push(b2).push(a2));
            },
            DocV::Nest(j, x) => {
                let g1 = frame(sat(f1.indent + j), f1.flat, *x);
                let g2 = frame(sat(f2.indent + j), f2.flat, *x);
                lemma_stack_size_push(r1, g1);
                lemma_less_flat_push(r1, r2, g1, g2);
                lemma_fits_less_flat(r, r1.push(g1), r2.push(g2));
            },
            DocV::Group(x) => {
                let g1 = frame(f1.indent, f1.flat, *x);
                let g2 = frame(f2.indent, f2.flat, *x);
                lemma_stack_size_push(r1, g1);
                lemma_less_flat_push(r1, r2, g1, g2);
                lemma_fits_less_flat(r, r1.push(g1), r2.push(g2));
            },
        }
    }
}

/// The look-ahead answers whether the rest of the current line, as the
/// engine will actually lay it out, fits.
proof fn lemma_fits_is_line_fit(w: int, col: int, fs: Seq<SFrame>)
    requires
        0 <= col,
        w <= isize::MAX,
        flat_frames_hardline_free(fs),
        texts_newline_free(fs),
    ensures
        fits(w - col, fs) == (col + line_len(layout(w, col, fs)) <= w),
    decreases stack_size(fs),
{
    if fs.len() > 0 && w - col >= 0 {
        let f = fs.last();
        let rest = fs.drop_last();
        lemma_last(fs);
        match f.doc {
            DocV::Nil => {
                lemma_fits_is_line_fit(w, col, rest);
            },
            DocV::Text(s) => {
                lemma_line_len_append(s, layout(w, sat(col + s.len()), rest));
                assert(fits(w - col, fs) == fits(w - col - s.len(), rest));
                if col + s.len() <= isize::MAX {
                    lemma_fits_is_line_fit(w, col + s.len(), rest);
                    assert(w - col - s.len() == w - (col + s.len()));
                } else {
                    assert(!fits(w - col - s.len(), rest));
                }
            },
            DocV::Line => {
                if f.flat {
                    assert(!seq![' '].contains('\n')) by {
                        assert(seq![' '][0] != '\n');
                    }
                    lemma_line_len_append(seq![' '], layout(w, sat(col + 1), rest));
                    lemma_fits_is_line_fit(w, col + 1, rest);
                } else {
                    lemma_line_len_newline(f.indent, layout(w, clamp0(f.indent), rest));
                }
            },
            DocV::SoftLine => {
                if f.flat {
                    lemma_fits_is_line_fit(w, col, rest);
                } else {
                    lemma_line_len_newline(f.indent, layout(w, clamp0(f.indent), rest));
                }
            },
            DocV::HardLine => {
                lemma_line_len_newline(f.indent, layout(w, clamp0(f.indent), rest));
            },
            DocV::Cat(a, b) => {
                let gb = frame(f.indent, f.flat, *b);
                let ga = frame(f.indent, f.flat, *a);
                lemma_push_wf(rest, gb);
                lemma_push_wf(rest.push(gb), ga);
                lemma_fits_is_line_fit(w, col, rest.push(gb).push(ga));
            },
            DocV::Nest(j, x) => {
                let g = frame(sat(f.indent + j), f.flat, *x);
                lemma_push_wf(rest, g);
                lemma_fits_is_line_fit(w, col, rest.push(g));
            },
            DocV::Group(x) => {
                if f.flat {
                    let g = frame(f.indent, true, *x);
                    lemma_push_wf(rest, g);
                    lemma_fits_is_line_fit(w, col, rest.push(g));
                } else {
                    let gt = frame(f.indent, true, *x);
                    let gb = frame(f.indent, false, *x);
                    let m = fits(w - col, rest.push(gt));
                    if m {
                        if has_hardline(*x) {
                            law_group_with_hardline_never_fits(w - col, rest, f.indent, *x);
                        }
                        lemma_push_wf(rest, gt);
                        lemma_fits_is_line_fit(w, col, rest.push(gt));
                        lemma_less_flat_refl(rest);
                        lemma_less_flat_push(rest, rest, gt, gb);
                        lemma_fits_less_flat(w - col, rest.push(gt), rest.push(gb));
                    } else {
                        lemma_push_wf(rest, gb);
                        lemma_fits_is_line_fit(w, col, rest.push(gb));
                    }
                }
            },
        }
    }
}

/// The engine's decision for a group met in broken mode is the documented
/// rule: it is laid flat exactly when it holds no hard line and, laid flat,
/// the output line it starts on (up to its next newline, following content
/// included as the engine lays it out) is at most `w` columns. Texts are
/// assumed newline-free, as `Doc::text` asks.
pub proof fn law_group_flat_iff_line_fits(w: int, col: int, rest: Seq<SFrame>, i: int, x: DocV)
    requires
        0 <= col,
        w <= isize::MAX,
        flat_frames_hardline_free(rest),
        texts_newline_free(rest),
        !text_has_newline(x),
    ensures
        fits(w - col, rest.push(frame(i, true, x))) == (!has_hardline(x) && col + line_len(
            layout(w, col, rest.push(frame(i, true, x))),
        ) <= w),
{
    if has_hardline(x) {
        law_group_with_hardline_never_fits(w - col, rest, i, x);
    } else {
        lemma_push_wf(rest, frame(i, true, x));
        lemma_fits_is_line_fit(w, col, rest.push(frame(i, true, x)));
    }
}

// ---------------------------------------------------------------------------
// No break point is invented: the output is the texts, in order, with only
// spaces and newlines between them, and one newline per offered break at most.
// ---------------------------------------------------------------------------

proof fn lemma_newline_count_append(a: Seq<char>, b: Seq<char>)
    ensures
        newline_count(a + b) == newline_count(a) + newline_count(b),
        strip(a + b) == strip(a) + strip(b),
    decreases b.len(),
{
    if b.len() == 0 {
        assert(a + b =~= a);
        assert(strip(a) + strip(b) =~= strip(a));
    } else {
        assert((a + b).drop_last() =~= a + b.drop_last());
        assert((a + b).last() == b.last());
        lemma_newline_count_append(a, b.drop_last());
        assert((strip(a) + strip(b.drop_last())).push(b.last()) =~= strip(a) + strip(
            b.drop_last(),
        ).push(b.last()));
    }
}

proof fn lemma_spaces_blank(n: nat)
    ensures
        newline_count(spaces(n)) == 0,
        strip(spaces(n)) == Seq::<char>::empty(),
    decreases n,
{
    if n > 0 {
        assert(spaces(n).drop_last() =~= spaces((n - 1) as nat));
        lemma_spaces_blank((n - 1) as nat);
    } else {
        assert(spaces(n) =~= Seq::<char>::empty());
    }
}

proof fn lemma_newline_blank(i: int)
    ensures
        newline_count(newline(i)) == 1,
        strip(newline(i)) == Seq::<char>::empty(),
        newline_count(seq![' ']) == 0,
        strip(seq![' ']) == Seq::<char>::empty(),
{
    lemma_spaces_blank(clamp0(i) as nat);
    lemma_newline_count_append(seq!['\n'], spaces(clamp0(i) as nat));
    assert(seq!['\n'].drop_last() =~= Seq::<char>::empty());
    assert(seq![' '].drop_last() =~= Seq::<char>::empty());
    assert(seq!['\n'].last() == '\n');
    assert(newline_count(Seq::<char>::empty()) == 0);
    assert(strip(Seq::<char>::empty()) =~= Seq::<char>::empty());
    assert(seq!['\n'].len() == 1);
    assert(newline_count(seq!['\n']) == newline_count(seq!['\n'].drop_last()) + 1);
    assert(newline_count(seq!['\n']) == 1);
    assert(strip(seq!['\n']) =~= Seq::<char>::empty());
    assert(strip(seq!['\n']) + Seq::<char>::empty() =~= Seq::<char>::empty());
}

spec fn texts_s(fs: Seq<SFrame>) -> Seq<char>
    decreases fs.len(),
{
    if fs.len() == 0 {
        seq![]
    } else {
        texts(fs.last().doc) + texts_s(fs.drop_last())
    }
}

spec fn hard_s(fs: Seq<SFrame>) -> nat
    decreases fs.len(),
{
    if fs.len() == 0 {
        0
    } else {
        hardline_count(fs.last().doc) + hard_s(fs.drop_last())
    }
}

spec fn brk_s(fs: Seq<SFrame>) -> nat
    decreases fs.len(),
{
    if fs.len() == 0 {
        0
    } else {
        break_count(fs.last().doc) + brk_s(fs.drop_last())
    }
}

proof fn lemma_push_counts(fs: Seq<SFrame>, g: SFrame)
    ensures
        texts_s(fs.push(g)) == texts(g.doc) + texts_s(fs),
        hard_s(fs.push(g)) == hardline_count(g.doc) + hard_s(fs),
        brk_s(fs.push(g)) == break_count(g.doc) + brk_s(fs),
        stack_size(fs.push(g)) == size(g.doc) + stack_size(fs),
{
    assert(fs.push(g).drop_last() =~= fs);
    assert(fs.push(g).last() == g);
}

proof fn lemma_layout_counts(w: int, col: int, fs: Seq<SFrame>)
    ensures
        hard_s(fs) + newline_count(texts_s(fs)) <= newline_count(layout(w, col, fs)),
        newline_count(layout(w, col, fs)) <= brk_s(fs) + newline_count(texts_s(fs)),
        strip(layout(w, col, fs)) == strip(texts_s(fs)),
    decreases stack_size(fs),
{
    if fs.len() == 0 {
        assert(texts_s(fs) =~= Seq::<char>::empty());
    } else {
        let f = fs.last();
        let rest = fs.drop_last();
        lemma_last(fs);
        let ci = clamp0(f.indent);
        match f.doc {
            DocV::Nil => {
                lemma_layout_counts(w, col, rest);
                assert(texts_s(fs) =~= texts_s(rest));
            },
            DocV::Text(s) => {
                lemma_layout_counts(w, sat(col + s.len()), rest);
                lemma_newline_count_append(s, layout(w, sat(col + s.len()), rest));
                lemma_newline_count_append(s, texts_s(rest));
            },
            DocV::Line => {
                lemma_newline_blank(f.indent);
                assert(texts_s(fs) =~= texts_s(rest));
                if f.flat {
                    lemma_layout_counts(w, sat(col + 1), rest);
                    lemma_newline_count_append(seq![' '], layout(w, sat(col + 1), rest));
                } else {
                    lemma_layout_counts(w, ci, rest);
                    lemma_newline_count_append(newline(f.indent), layout(w, ci, rest));
                }
            },
            DocV::SoftLine => {
                lemma_newline_blank(f.indent);
                assert(texts_s(fs) =~= texts_s(rest));
                if f.flat {
                    lemma_layout_counts(w, col, rest);
                } else {
                    lemma_layout_counts(w, ci, rest);
                    lemma_newline_count_append(newline(f.indent), layout(w, ci, rest));
                }
            },
            DocV::HardLine => {
                lemma_newline_blank(f.indent);
                assert(texts_s(fs) =~= texts_s(rest));
                lemma_layout_counts(w, ci, rest);
                lemma_newline_count_append(newline(f.indent), layout(w, ci, rest));
            },
            DocV::Cat(a, b) => {
                let gb = frame(f.indent, f.flat, *b);
                let ga = frame(f.indent, f.flat, *a);
                lemma_push_counts(rest, gb);
                lemma_push_counts(rest.push(gb), ga);
                assert(texts_s(rest.push(gb).push(ga)) =~= texts_s(fs));
                lemma_layout_counts(w, col, rest.push(gb).push(ga));
            },
            DocV::Nest(j, x) => {
                let g = frame(sat(f.indent + j), f.flat, *x);
                lemma_push_counts(rest, g);
                lemma_layout_counts(w, col, rest.push(g));
            },
            DocV::Group(x) => {
                let m = f.flat || fits(w - col, rest.push(frame(f.indent, true, *x)));
                let g = frame(f.indent, m, *x);
                lemma_push_counts(rest, g);
                lemma_layout_counts(w, col, rest.push(g));
            },
        }
    }
}

/// The renderer never invents a break point: with spaces and newlines set
/// aside, the output is exactly the document's texts in order; it holds at
/// least one newline per hard line and at most one per line break offered
/// (newlines inside texts counted on both sides). In particular a document
/// holding a hard line renders with a newline.
pub proof fn law_no_invented_breaks(d: DocV, width: usize)
    ensures
        strip(spec_render(d, width)) == strip(texts(d)),
        hardline_count(d) + newline_count(texts(d)) <= newline_count(spec_render(d, width)),
        newline_count(spec_render(d, width)) <= break_count(d) + newline_count(texts(d)),
        has_hardline(d) ==> spec_render(d, width).contains('\n'),
{
    let fs = seq![frame(0, false, d)];
    lemma_single(frame(0, false, d));
    lemma_push_counts(Seq::<SFrame>::empty(), frame(0, false, d));
    assert(texts_s(Seq::<SFrame>::empty()) =~= Seq::<char>::empty());
    assert(texts_s(fs) =~= texts(d));
    lemma_layout_counts(target(width), 0, fs);
    if has_hardline(d) {
        lemma_hardline_counted(d);
        lemma_newline_count_contains(spec_render(d, width));
    }
}

proof fn lemma_hardline_counted(d: DocV)
    ensures
        has_hardline(d) ==> hardline_count(d) >= 1,
    decreases d,
{
    match d {
        DocV::Cat(a, b) => {
            lemma_hardline_counted(*a);
            lemma_hardline_counted(*b);
        },
        DocV::Nest(_, x) => {
            lemma_hardline_counted(*x);
        },
        DocV::Group(x) => {
            lemma_hardline_counted(*x);
        },
        _ => {},
    }
}

proof fn lemma_newline_count_contains(s: Seq<char>)
    ensures
        newline_count(s) > 0 ==> s.contains('\n'),
    decreases s.len(),
{
    if s.len() > 0 {
        lemma_newline_count_contains(s.drop_last());
        if s.last() == '\n' {
            assert(s[s.len() - 1] == '\n');
        } else if newline_count(s) > 0 {
            let k = choose|k: int| 0 <= k < s.drop_last().len() && s.drop_last()[k] == '\n';
            assert(s[k] == '\n');
        }
    }
}

/// On every stack the engine reaches (flat frames hard-line free), laying
/// out agrees with the documented layout.
proof fn lemma_layout_documented(w: int, col: int, fs: Seq<SFrame>)
    requires
        0 <= col,
        w <= isize::MAX,
        flat_frames_hardline_free(fs),
        texts_newline_free(fs),
    ensures
        layout(w, col, fs) == doc_layout(w, col, fs),
    decreases stack_size(fs),
{
    if fs.len() > 0 {
        let f = fs.last();
        let rest = fs.drop_last();
        lemma_last(fs);
        let ci = clamp0(f.indent);
        match f.doc {
            DocV::Nil => {
                lemma_layout_documented(w, col, rest);
            },
            DocV::Text(s) => {
                lemma_layout_documented(w, sat(col + s.len()), rest);
            },
            DocV::Line => {
                lemma_layout_documented(w, sat(col + 1), rest);
                lemma_layout_documented(w, ci, rest);
            },
            DocV::SoftLine => {
                lemma_layout_documented(w, col, rest);
                lemma_layout_documented(w, ci, rest);
            },
            DocV::HardLine => {
                lemma_layout_documented(w, ci, rest);
            },
            DocV::Cat(a, b) => {
                let gb = frame(f.indent, f.flat, *b);
                let ga = frame(f.indent, f.flat, *a);
                lemma_push_wf(rest, gb);
                lemma_push_wf(rest.push(gb), ga);
                lemma_layout_documented(w, col, rest.push(gb).push(ga));
            },
            DocV::Nest(j, x) => {
                let g = frame(sat(f.indent + j), f.flat, *x);
                lemma_push_wf(rest, g);
                lemma_layout_documented(w, col, rest.push(g));
            },
            DocV::Group(x) => {
                let gt = frame(f.indent, true, *x);
                lemma_push_wf(rest, gt);
                if !f.flat {
                    law_group_flat_iff_line_fits(w, col, rest, f.indent, *x);
                    if !has_hardline(*x) {
                        lemma_layout_documented(w, col, rest.push(gt));
                    }
                }
                let m = f.flat || fits(w - col, rest.push(gt));
                assert(m == (f.flat || (!has_hardline(*x) && col + line_len(
                    doc_layout(w, col, rest.push(gt)),
                ) <= w)));
                let g = frame(f.indent, m, *x);
                if m {
                    if has_hardline(*x) && !f.flat {
                        law_group_with_hardline_never_fits(w - col, rest, f.indent, *x);
                    }
                }
                lemma_push_wf(rest, g);
                lemma_layout_documented(w, col, rest.push(g));
            },
        }
    }
}

/// Rendering follows the documented layout: each group, met outside any flat
/// group, is laid flat exactly when it holds no hard line and, laid flat, the
/// output line it starts on is at most the width. Texts are assumed free of
/// newlines, as `Doc::text` asks.
pub proof fn law_render_is_documented(d: DocV, width: usize)
    requires
        !text_has_newline(d),
    ensures
        spec_render(d, width) == spec_render_documented(d, width),
{
    let fs = seq![frame(0, false, d)];
    lemma_single(frame(0, false, d));
    lemma_push_wf(Seq::<SFrame>::empty(), frame(0, false, d));
    lemma_layout_documented(target(width), 0, fs);
}

// ---------------------------------------------------------------------------
// Group-free documents render in their broken form.
// ---------------------------------------------------------------------------

spec fn broken_s(fs: Seq<SFrame>) -> Seq<char>
    decreases fs.len(),
{
    if fs.len() == 0 {
        seq![]
    } else {
        broken_form(fs.last().doc, fs.last().indent) + broken_s(fs.drop_last())
    }
}

spec fn all_broken(fs: Seq<SFrame>) -> bool
    decreases fs.len(),
{
    if fs.len() == 0 {
        true
    } else {
        !fs.last().flat && all_broken(fs.drop_last())
    }
}

proof fn lemma_push_broken(fs: Seq<SFrame>, g: SFrame)
    ensures
        broken_s(fs.push(g)) == broken_form(g.doc, g.indent) + broken_s(fs),
        all_broken(fs.push(g)) == (!g.flat && all_broken(fs)),
        no_group(fs.push(g)) == (!has_group(g.doc) && no_group(fs)),
        stack_size(fs.push(g)) == size(g.doc) + stack_size(fs),
{
    assert(fs.push(g).drop_last() =~= fs);
    assert(fs.push(g).last() == g);
}

proof fn lemma_layout_broken(w: int, col: int, fs: Seq<SFrame>)
    requires
        no_group(fs),
        all_broken(fs),
    ensures
        layout(w, col, fs) == broken_s(fs),
    decreases stack_size(fs),
{
    if fs.len() > 0 {
        let f = fs.last();
        let rest = fs.drop_last();
        lemma_last(fs);
        let ci = clamp0(f.indent);
        match f.doc {
            DocV::Nil => {
                lemma_layout_broken(w, col, rest);
                assert(broken_s(fs) =~= broken_s(rest));
            },
            DocV::Text(s) => {
                lemma_layout_broken(w, sat(col + s.len()), rest);
            },
            DocV::Line => {
                lemma_layout_broken(w, ci, rest);
            },
            DocV::SoftLine => {
                lemma_layout_broken(w, ci, rest);
            },
            DocV::HardLine => {
                lemma_layout_broken(w, ci, rest);
            },
            DocV::Cat(a, b) => {
                let gb = frame(f.indent, f.flat, *b);
                let ga = frame(f.indent, f.flat, *a);
                lemma_push_broken(rest, gb);
                lemma_push_broken(rest.push(gb), ga);
                assert(broken_s(rest.push(gb).push(ga)) =~= broken_s(fs));
                lemma_layout_broken(w, col, rest.push(gb).push(ga));
            },
            DocV::Nest(j, x) => {
                let g = frame(sat(f.indent + j), f.flat, *x);
                lemma_push_broken(rest, g);
                lemma_layout_broken(w, col, rest.push(g));
            },
            DocV::Group(_) => {},
        }
    }
}

/// A document without groups renders, at every width, as its broken form:
/// texts verbatim, every line break a newline and the indentation that the
/// enclosing `nest`s add up to (at least 0).
pub proof fn law_group_free_is_broken_form(d: DocV, width: usize)
    requires
        !has_group(d),
    ensures
        spec_render(d, width) == broken_form(d, 0),
{
    let fs = seq![frame(0, false, d)];
    lemma_single(frame(0, false, d));
    lemma_push_broken(Seq::<SFrame>::empty(), frame(0, false, d));
    assert(broken_s(Seq::<SFrame>::empty()) =~= Seq::<char>::empty());
    assert(broken_s(fs) =~= broken_form(d, 0));
    lemma_layout_broken(target(width), 0, fs);
}

// ---------------------------------------------------------------------------
// The output is the texts, in order, with only blanks around them.
// ---------------------------------------------------------------------------

spec fn leaves_s(fs: Seq<SFrame>) -> Seq<Seq<char>>
    decreases fs.len(),
{
    if fs.len() == 0 {
        seq![]
    } else {
        text_leaves(fs.last().doc) + leaves_s(fs.drop_last())
    }
}

proof fn lemma_push_leaves(fs: Seq<SFrame>, g: SFrame)
    ensures
        leaves_s(fs.push(g)) == text_leaves(g.doc) + leaves_s(fs),
        stack_size(fs.push(g)) == size(g.doc) + stack_size(fs),
{
    assert(fs.push(g).drop_last() =~= fs);
    assert(fs.push(g).last() == g);
}

proof fn lemma_woven_blank(b: Seq<char>, out: Seq<char>, ts: Seq<Seq<char>>)
    requires
        is_blank(b),
        woven(out, ts),
    ensures
        woven(b + out, ts),
{
    if ts.len() == 0 {
        assert forall|i: int| 0 <= i < (b + out).len() implies (b + out)[i] == ' ' || (b
            + out)[i] == '\n' by {
            if i < b.len() {
                assert((b + out)[i] == b[i]);
            } else {
                assert((b + out)[i] == out[i - b.len()]);
            }
        }
    } else {
        let k = choose|k: int|
            0 <= k && k + ts[0].len() <= out.len() && #[trigger] is_blank(out.take(k))
                && out.subrange(k, k + ts[0].len()) == ts[0] && woven(
                out.skip(k + ts[0].len()),
                ts.drop_first(),
            );
        let k2 = b.len() + k;
        let o2 = b + out;
        assert(o2.take(k2) =~= b + out.take(k));
        assert forall|i: int| 0 <= i < o2.take(k2).len() implies o2.take(k2)[i] == ' '
            || o2.take(k2)[i] == '\n' by {
            if i < b.len() {
                assert(o2.take(k2)[i] == b[i]);
            } else {
                assert(o2.take(k2)[i] == out.take(k)[i - b.len()]);
            }
        }
        assert(o2.subrange(k2, k2 + ts[0].len()) =~= out.subrange(k, k + ts[0].len()));
        assert(o2.skip(k2 + ts[0].len()) =~= out.skip(k + ts[0].len()));
        assert(is_blank(o2.take(k2)));
    }
}

proof fn lemma_woven_text(s: Seq<char>, out: Seq<char>, ts: Seq<Seq<char>>)
    requires
        woven(out, ts),
    ensures
        woven(s + out, seq![s] + ts),
{
    let o2 = s + out;
    let t2 = seq![s] + ts;
    assert(t2[0] == s);
    assert(t2.drop_first() =~= ts);
    assert(o2.take(0) =~= Seq::<char>::empty());
    assert(is_blank(o2.take(0)));
    assert(o2.subrange(0, s.len() as int) =~= s);
    assert(o2.skip(s.len() as int) =~= out);
}

proof fn lemma_layout_woven(w: int, col: int, fs: Seq<SFrame>)
    ensures
        woven(layout(w, col, fs), leaves_s(fs)),
    decreases stack_size(fs),
{
    if fs.len() == 0 {
        assert(leaves_s(fs).len() == 0);
        assert(is_blank(layout(w, col, fs)));
    } else {
        let f = fs.last();
        let rest = fs.drop_last();
        lemma_last(fs);
        let ci = clamp0(f.indent);
        assert(is_blank(seq![' ']));
        assert(is_blank(newline(f.indent)));
        match f.doc {
            DocV::Nil => {
                lemma_layout_woven(w, col, rest);
                assert(leaves_s(fs) =~= leaves_s(rest));
            },
            DocV::Text(s) => {
                lemma_layout_woven(w, sat(col + s.len()), rest);
                lemma_woven_text(s, layout(w, sat(col + s.len()), rest), leaves_s(rest));
            },
            DocV::Line => {
                assert(leaves_s(fs) =~= leaves_s(rest));
                if f.flat {
                    lemma_layout_woven(w, sat(col + 1), rest);
                    lemma_woven_blank(seq![' '], layout(w, sat(col + 1), rest), leaves_s(rest));
                } else {
                    lemma_layout_woven(w, ci, rest);
                    lemma_woven_blank(newline(f.indent), layout(w, ci, rest), leaves_s(rest));
                }
            },
            DocV::SoftLine => {
                assert(leaves_s(fs) =~= leaves_s(rest));
                if f.flat {
                    lemma_layout_woven(w, col, rest);
                } else {
                    lemma_layout_woven(w, ci, rest);
                    lemma_woven_blank(newline(f.indent), layout(w, ci, rest), leaves_s(rest));
                }
            },
            DocV::HardLine => {
                assert(leaves_s(fs) =~= leaves_s(rest));
                lemma_layout_woven(w, ci, rest);
                lemma_woven_blank(newline(f.indent), layout(w, ci, rest), leaves_s(rest));
            },
            DocV::Cat(a, b) => {
                let gb = frame(f.indent, f.flat, *b);
                let ga = frame(f.indent, f.flat, *a);
                lemma_push_leaves(rest, gb);
                lemma_push_leaves(rest.push(gb), ga);
                assert(leaves_s(rest.push(gb).push(ga)) =~= leaves_s(fs));
                lemma_layout_woven(w, col, rest.push(gb).push(ga));
            },
            DocV::Nest(j, x) => {
                let g = frame(sat(f.indent + j), f.flat, *x);
                lemma_push_leaves(rest, g);
                lemma_layout_woven(w, col, rest.push(g));
            },
            DocV::Group(x) => {
                let m = f.flat || fits(w - col, rest.push(frame(f.indent, true, *x)));
                let g = frame(f.indent, m, *x);
                lemma_push_leaves(rest, g);
                lemma_layout_woven(w, col, rest.push(g));
            },
        }
    }
}

/// The output is the document's text leaves, each verbatim and in order,
/// with only spaces and newlines before, between and after them.
pub proof fn law_texts_in_order_between_blanks(d: DocV, width: usize)
    ensures
        woven(spec_render(d, width), text_leaves(d)),
{
    let fs = seq![frame(0, false, d)];
    lemma_single(frame(0, false, d));
    lemma_push_leaves(Seq::<SFrame>::empty(), frame(0, false, d));
    assert(leaves_s(Seq::<SFrame>::empty()) =~= Seq::<Seq<char>>::empty());
    assert(leaves_s(fs) =~= text_leaves(d));
    lemma_layout_woven(target(width), 0, fs);
}

// ---------------------------------------------------------------------------
// `concat` and `join` lay out their items one after another.
// ---------------------------------------------------------------------------

/// Frames for laying out the items `ds` one after another at `indent`, in
/// `flat` mode: the first item on top.
pub open spec fn item_frames(indent: int, flat: bool, ds: Seq<DocV>) -> Seq<SFrame> {
    Seq::new(ds.len(), |k: int| frame(indent, flat, ds[ds.len() - 1 - k]))
}

/// The items of a join: the documents with `sep` between consecutive ones.
pub open spec fn interleave(sep: DocV, ds: Seq<DocV>) -> Seq<DocV> {
    Seq::new(
        if ds.len() == 0 { 0 } else { (2 * ds.len() - 1) as nat },
        |k: int| if k % 2 == 0 { ds[k / 2] } else { sep },
    )
}

proof fn lemma_norm_concat_items(i: int, m: bool, ds: Seq<DocV>)
    ensures
        norm(seq![frame(i, m, concat_model(ds))]) == norm(item_frames(i, m, ds)),
    decreases ds.len(),
{
    let f = frame(i, m, concat_model(ds));
    lemma_single(f);
    if ds.len() == 0 {
        assert(item_frames(i, m, ds) =~= Seq::<SFrame>::empty());
        assert(norm(seq![f]) == norm(Seq::<SFrame>::empty()));
    } else if ds.len() == 1 {
        assert(item_frames(i, m, ds) =~= seq![f]);
    } else {
        let front = ds.drop_last();
        let fl = frame(i, m, ds.last());
        let fc = frame(i, m, concat_model(front));
        lemma_norm_concat_items(i, m, front);
        assert(Seq::<SFrame>::empty().push(fl).push(fc) =~= seq![fl, fc]);
        assert(norm(seq![f]) == norm(seq![fl, fc]));
        lemma_norm_pair(fl, fc);
        assert(item_frames(i, m, ds) =~= seq![fl] + item_frames(i, m, front));
        lemma_norm_concat(seq![fl], item_frames(i, m, front));
    }
}

/// Laying out `concat(ds)` is laying out each item in turn, first to last,
/// wherever it stands: the items keep their order, none is dropped or
/// repeated, and nothing is added between them. In particular it renders as
/// the items queued one after another.
pub proof fn law_concat_lays_out_items_in_turn(
    ds: Seq<DocV>,
    w: int,
    col: int,
    rest: Seq<SFrame>,
    i: int,
    m: bool,
    width: usize,
)
    ensures
        layout(w, col, rest.push(frame(i, m, concat_model(ds)))) == layout(
            w,
            col,
            rest + item_frames(i, m, ds),
        ),
        spec_render(concat_model(ds), width) == layout(
            target(width),
            0,
            item_frames(0, false, ds),
        ),
{
    let f = frame(i, m, concat_model(ds));
    lemma_norm_concat_items(i, m, ds);
    assert(rest.push(f) =~= rest + seq![f]);
    lemma_norm_concat(rest, seq![f]);
    lemma_norm_concat(rest, item_frames(i, m, ds));
    lemma_layout_norm(w, col, rest.push(f));
    lemma_layout_norm(w, col, rest + item_frames(i, m, ds));
    let g = frame(0, false, concat_model(ds));
    lemma_norm_concat_items(0, false, ds);
    lemma_layout_norm(target(width), 0, seq![g]);
    lemma_layout_norm(target(width), 0, item_frames(0, false, ds));
}

proof fn lemma_norm_join_items(i: int, m: bool, sep: DocV, ds: Seq<DocV>)
    ensures
        norm(seq![frame(i, m, join_model(sep, ds))]) == norm(item_frames(i, m, interleave(sep, ds))),
    decreases ds.len(),
{
    let f = frame(i, m, join_model(sep, ds));
    lemma_single(f);
    let il = interleave(sep, ds);
    if ds.len() == 0 {
        assert(item_frames(i, m, il) =~= Seq::<SFrame>::empty());
        assert(norm(seq![f]) == norm(Seq::<SFrame>::empty()));
    } else if ds.len() == 1 {
        assert(il[0] == ds[0]);
        assert(item_frames(i, m, il) =~= seq![f]);
    } else {
        let front = ds.drop_last();
        let fl = frame(i, m, ds.last());
        let fs = frame(i, m, sep);
        let fj = frame(i, m, join_model(sep, front));
        let js = DocV::Cat(Box::new(join_model(sep, front)), Box::new(sep));
        let fjs = frame(i, m, js);
        lemma_norm_join_items(i, m, sep, front);
        // The outer `Cat` queues the last item below `join(front) sep`.
        assert(Seq::<SFrame>::empty().push(fl).push(fjs) =~= seq![fl, fjs]);
        assert(norm(seq![f]) == norm(seq![fl, fjs]));
        lemma_norm_pair(fl, fjs);
        lemma_single(fjs);
        assert(Seq::<SFrame>::empty().push(fs).push(fj) =~= seq![fs, fj]);
        assert(norm(seq![fjs]) == norm(seq![fs, fj]));
        lemma_norm_pair(fs, fj);
        // The items: those of the front, then `sep`, then the last item.
        let ilf = interleave(sep, front);
        assert(item_frames(i, m, il) =~= seq![fl] + (seq![fs] + item_frames(i, m, ilf))) by {
            assert forall|k: int| 0 <= k < item_frames(i, m, il).len() implies #[trigger] item_frames(
                i,
                m,
                il,
            )[k] == (seq![fl] + (seq![fs] + item_frames(i, m, ilf)))[k] by {
                if k >= 2 {
                    assert(il.len() - 1 - k == ilf.len() - 1 - (k - 2));
                    assert((il.len() - 1 - k) % 2 == (ilf.len() - 1 - (k - 2)) % 2);
                    assert((il.len() - 1 - k) / 2 == (ilf.len() - 1 - (k - 2)) / 2);
                } else if k == 1 {
                    assert(il.len() - 2 == 2 * ds.len() - 3);
                    assert((2 * ds.len() - 3) % 2 == 1) by (nonlinear_arith)
                        requires
                            ds.len() >= 2,
                    ;
                } else {
                    assert(il.len() - 1 == 2 * (ds.len() - 1));
                    assert((2 * (ds.len() - 1)) % 2 == 0) by (nonlinear_arith);
                    assert((2 * (ds.len() - 1)) / 2 == ds.len() - 1) by (nonlinear_arith);
                }
            }
        }
        lemma_norm_concat(seq![fs], item_frames(i, m, ilf));
        lemma_norm_concat(seq![fl], seq![fs] + item_frames(i, m, ilf));
    }
}

/// Laying out `join(sep, ds)` is laying out `ds[0]`, then `sep` and `ds[1]`,
/// then `sep` and `ds[2]`, and so on: exactly one copy of `sep` between
/// consecutive items (none before the first or after the last), the items in
/// order, nothing else added.
pub proof fn law_join_lays_out_items_and_separators(
    sep: DocV,
    ds: Seq<DocV>,
    w: int,
    col: int,
    rest: Seq<SFrame>,
    i: int,
    m: bool,
    width: usize,
)
    ensures
        layout(w, col, rest.push(frame(i, m, join_model(sep, ds)))) == layout(
            w,
            col,
            rest + item_frames(i, m, interleave(sep, ds)),
        ),
        spec_render(join_model(sep, ds), width) == layout(
            target(width),
            0,
            item_frames(0, false, interleave(sep, ds)),
        ),
{
    let il = interleave(sep, ds);
    let f = frame(i, m, join_model(sep, ds));
    lemma_norm_join_items(i, m, sep, ds);
    assert(rest.push(f) =~= rest + seq![f]);
    lemma_norm_concat(rest, seq![f]);
    lemma_norm_concat(rest, item_frames(i, m, il));
    lemma_layout_norm(w, col, rest.push(f));
    lemma_layout_norm(w, col, rest + item_frames(i, m, il));
    let g = frame(0, false, join_model(sep, ds));
    lemma_norm_join_items(0, false, sep, ds);
    lemma_layout_norm(target(width), 0, seq![g]);
    lemma_layout_norm(target(width), 0, item_frames(0, false, il));
}

// ---------------------------------------------------------------------------
// Decimal numbers, as the debug view writes `nest` amounts.
// ---------------------------------------------------------------------------

/// A character among `'0'` to `'9'`.
pub open spec fn is_digit_char(c: char) -> bool {
    '0' <= c <= '9'
}

/// The number a string of decimal digit characters denotes.
pub open spec fn digits_value(s: Seq<char>) -> int
    decreases s.len(),
{
    if s.len() == 0 {
        0
    } else {
        digits_value(s.drop_last()) * 10 + (s.last() as int - '0' as int)
    }
}

proof fn lemma_digit(d: int)
    requires
        0 <= d < 10,
    ensures
        is_digit_char(digit(d)),
        digit(d) as int - '0' as int == d,
        d != 0 ==> digit(d) != '0',
{
}

/// The digits of `n` are decimal digit characters, with no leading zero
/// unless `n` is 0, and read back in base 10 they give `n`.
pub proof fn law_digits_denote(n: nat)
    ensures
        digits(n).len() >= 1,
        forall|k: int| 0 <= k < digits(n).len() ==> is_digit_char(#[trigger] digits(n)[k]),
        n != 0 ==> digits(n)[0] != '0',
        digits_value(digits(n)) == n,
    decreases n,
{
    if n < 10 {
        lemma_digit(n as int);
        assert(digits(n).drop_last() =~= Seq::<char>::empty());
        assert(digits_value(Seq::<char>::empty()) == 0);
        assert(digits(n).last() == digit(n as int));
        assert(digits_value(digits(n)) == digits_value(digits(n).drop_last()) * 10 + (digit(
            n as int,
        ) as int - '0' as int));
    } else {
        let q = n / 10;
        let r = n % 10;
        law_digits_denote(q);
        lemma_digit(r as int);
        let s = digits(n);
        assert(s == digits(q).push(digit(r as int)));
        assert(s.drop_last() =~= digits(q));
        assert(s[0] == digits(q)[0]);
        assert(q * 10 + r == n) by (nonlinear_arith)
            requires
                q == n / 10,
                r == n % 10,
        ;
        assert(digits_value(s) == digits_value(digits(q)) * 10 + (digit(r as int) as int
            - '0' as int));
        assert forall|k: int| 0 <= k < s.len() implies is_digit_char(#[trigger] s[k]) by {
            if k < digits(q).len() {
                assert(s[k] == digits(q)[k]);
            }
        }
    }
}

/// The decimal form of an integer: a `-` exactly when it is negative, then
/// the digits of its magnitude, which read back in base 10 give it.
pub proof fn law_decimal_denotes(n: int)
    ensures
        n < 0 ==> decimal(n)[0] == '-' && decimal(n).drop_first() == digits((-n) as nat)
            && digits_value(decimal(n).drop_first()) == -n,
        n >= 0 ==> decimal(n) == digits(n as nat) && digits_value(decimal(n)) == n,
        forall|k: int|
            (if n < 0 { 1int } else { 0int }) <= k < decimal(n).len() ==> is_digit_char(
                #[trigger] decimal(n)[k],
            ),
{
    if n < 0 {
        law_digits_denote((-n) as nat);
        assert(decimal(n).drop_first() =~= digits((-n) as nat));
        assert forall|k: int| 1 <= k < decimal(n).len() implies is_digit_char(
            #[trigger] decimal(n)[k],
        ) by {
            assert(decimal(n)[k] == digits((-n) as nat)[k - 1]);
        }
    } else {
        law_digits_denote(n as nat);
    }
}

} // verus!
