use pretty_lang::Doc;

fn call(args: &[&'static str]) -> Doc {
    Doc::text("f(")
        .append(
            Doc::softline()
                .append(Doc::join(
                    Doc::text(",").append(Doc::line()),
                    args.iter().map(|a| Doc::text(*a)).collect(),
                ))
                .nest(4),
        )
        .append(Doc::softline())
        .append(Doc::text(")"))
        .group()
}

fn bracket(open: &'static str, body: Doc, close: &'static str) -> Doc {
    Doc::text(open)
        .append(Doc::softline().append(body).nest(2))
        .append(Doc::softline())
        .append(Doc::text(close))
        .group()
}

fn sample(tag: &'static str) -> Doc {
    Doc::text(tag)
        .append(Doc::line())
        .append(Doc::text("item").nest(3))
        .group()
}

#[test]
fn quick_start_reflows() {
    let doc = call(&["a", "b", "c"]);
    assert_eq!(doc.render(80), "f(a, b, c)");
    assert_eq!(doc.render(6), "f(\n    a,\n    b,\n    c\n)");
}

#[test]
fn group_example_breaks_every_argument() {
    let doc = call(&["alpha", "beta", "gamma"]);
    assert_eq!(doc.render(80), "f(alpha, beta, gamma)");
    assert_eq!(doc.render(10), "f(\n    alpha,\n    beta,\n    gamma\n)");
}

#[test]
fn bracket_recipe() {
    let list = bracket(
        "[",
        Doc::join(Doc::text(",").append(Doc::line()), Vec::from(["1", "2", "3"].map(Doc::text))),
        "]",
    );
    assert_eq!(list.render(80), "[1, 2, 3]");
    assert_eq!(list.render(4), "[\n  1,\n  2,\n  3\n]");
    let obj = bracket(
        "{",
        Doc::join(Doc::text(",").append(Doc::line()), Vec::from(["a: 1", "b: 2"].map(Doc::text))),
        "}",
    );
    assert_eq!(obj.render(80), "{a: 1, b: 2}");
    assert_eq!(obj.render(6), "{\n  a: 1,\n  b: 2\n}");
}

#[test]
fn hardline_block_always_breaks() {
    let block = Doc::text("{")
        .append(Doc::hardline().append(Doc::text("body();")).nest(4))
        .append(Doc::hardline())
        .append(Doc::text("}"));
    assert_eq!(block.render(80), "{\n    body();\n}");
}

#[test]
fn join_flexible_separator_reflows() {
    let args = Doc::join(Doc::text(",").append(Doc::line()), Vec::from(["x", "y", "z"].map(Doc::text))).group();
    assert_eq!(args.render(80), "x, y, z");
    assert_eq!(args.render(3), "x,\ny,\nz");
    let path = Doc::join(Doc::text("::"), Vec::from(["std", "fmt", "Write"].map(Doc::text)));
    assert_eq!(path.render(80), "std::fmt::Write");
}

#[test]
fn append_associative_on_examples() {
    for width in [0, 1, 3, 5, 8, 80] {
        let left = sample("a").append(sample("bb")).append(sample("ccc")).render(width);
        let right = sample("a").append(sample("bb").append(sample("ccc"))).render(width);
        assert_eq!(left, right);
    }
}

#[test]
fn nil_identity_on_examples() {
    for width in [0, 2, 4, 80] {
        let a = sample("head");
        assert_eq!(a.clone().append(Doc::nil()).render(width), a.render(width));
        assert_eq!(Doc::nil().append(a.clone()).render(width), a.render(width));
    }
}

#[test]
fn group_idempotent_on_examples() {
    for width in [0, 1, 6, 7, 80] {
        let d = Doc::text("ab").append(Doc::line()).append(Doc::text("cd"));
        assert_eq!(d.clone().group().group().render(width), d.clone().group().render(width));
    }
}

#[test]
fn grouped_wide_document_is_one_line() {
    let d = Doc::text("let")
        .append(Doc::line())
        .append(Doc::text("x").append(Doc::softline()).append(Doc::text("=")).nest(-3))
        .append(Doc::line().append(Doc::text("1")).group().nest(7));
    let out = d.group().render(1_000_000);
    assert_eq!(out, "let x= 1");
    assert!(!out.contains('\n'));
}

#[test]
fn nest_invisible_when_flat() {
    let d = Doc::text("a").append(Doc::line()).append(Doc::text("b"));
    assert_eq!(d.clone().nest(9).group().render(80), "a b");
    assert_eq!(d.group().render(80), "a b");
}

#[test]
fn nest_is_additive() {
    let d = Doc::text("a").append(Doc::hardline()).append(Doc::text("b"));
    assert_eq!(d.clone().nest(2).nest(3).render(80), d.nest(5).render(80));
    let e = Doc::text("a").append(Doc::hardline()).append(Doc::text("b"));
    assert_eq!(e.nest(2).nest(3).render(80), "a\n     b");
}

#[test]
fn hardline_group_renders_as_ungrouped() {
    let d = Doc::text("a")
        .append(Doc::line())
        .append(Doc::text("b"))
        .append(Doc::text("c").append(Doc::hardline()).group())
        .append(Doc::text("d"));
    assert_eq!(d.clone().group().render(80), d.render(80));
    assert_eq!(d.render(80), "a\nbc\nd");
}

#[test]
fn no_break_document_is_verbatim_at_every_width() {
    let d = Doc::text("abc").append(Doc::text("def").nest(4).group()).append(Doc::nil());
    for width in [0, 1, 5, 80] {
        assert_eq!(d.render(width), "abcdef");
    }
}

#[test]
fn width_zero_breaks_every_group() {
    let d = Doc::text("a").append(Doc::line()).append(Doc::text("b")).group();
    assert_eq!(d.render(0), "a\nb");
    let empty = Doc::nil().group();
    assert_eq!(empty.render(0), "");
}

#[test]
fn negative_nest_emits_no_indentation() {
    let d = Doc::text("x").append(Doc::hardline().append(Doc::text("y")).nest(-3)).nest(1);
    assert_eq!(d.render(80), "x\ny");
}

#[test]
fn long_indentation_is_written_in_full() {
    let d = Doc::text("x").append(Doc::hardline().append(Doc::text("y")).nest(70));
    let out = d.render(80);
    assert_eq!(out.len(), 1 + 1 + 70 + 1);
    assert!(out.ends_with(&format!("\n{}y", " ".repeat(70))));
}

#[test]
fn inner_group_stays_flat_inside_broken_outer() {
    let inner = Doc::text("[").append(Doc::text("1").append(Doc::line()).append(Doc::text("2")).group()).append(Doc::text("]"));
    let outer = Doc::text("xxxx").append(Doc::line()).append(inner).group();
    assert_eq!(outer.render(7), "xxxx\n[1 2]");
}

#[test]
fn text_width_counts_scalars() {
    // Four scalars fit exactly in four columns, so the softline stays flat.
    let d = Doc::text("日本語!").append(Doc::softline()).append(Doc::text("x")).group();
    assert_eq!(d.render(5), "日本語!x");
    assert_eq!(d.render(4), "日本語!\nx");
}

#[test]
fn render_into_appends_to_existing_text() {
    let doc = Doc::text("b").append(Doc::line()).append(Doc::text("c")).group();
    let mut buf = String::from("a:");
    let r = doc.render_into(80, &mut buf);
    assert!(r.is_ok());
    assert_eq!(buf, "a:b c");
}

#[test]
fn clone_renders_identically() {
    let d = sample("q");
    let c = d.clone();
    assert_eq!(c.render(1), d.render(1));
    assert_eq!(c.render(80), "q item");
}

#[test]
fn debug_string_covers_every_node() {
    let d = Doc::concat(vec![
        Doc::nil(),
        Doc::text("say \"hi\"\n"),
        Doc::softline(),
        Doc::hardline(),
        Doc::line().nest(-12),
    ]);
    assert_eq!(
        d.debug_string(),
        "Cat(Cat(Cat(Cat(Nil, Text(\"say \\\"hi\\\"\\n\")), SoftLine), HardLine), Nest(-12, Line))"
    );
    assert_eq!(Doc::nil().debug_string(), "Nil");
}

#[test]
fn concat_and_join_shapes() {
    let c = Doc::concat(vec![Doc::text("a"), Doc::text("b"), Doc::text("c")]);
    assert_eq!(c.debug_string(), "Cat(Cat(Text(\"a\"), Text(\"b\")), Text(\"c\"))");
    let j = Doc::join(Doc::text(","), vec![Doc::text("a"), Doc::text("b"), Doc::text("c")]);
    assert_eq!(
        j.debug_string(),
        "Cat(Cat(Cat(Cat(Text(\"a\"), Text(\",\")), Text(\"b\")), Text(\",\")), Text(\"c\"))"
    );
}

#[test]
fn deep_nest_and_append_chains_drop_and_render() {
    let mut doc = Doc::text("end");
    for _ in 0..100_000 {
        doc = doc.nest(1);
    }
    let out = doc.group().render(80);
    assert_eq!(out, "end");
    let mut left = Doc::text("s");
    for _ in 0..100_000 {
        left = left.append(Doc::text("x"));
    }
    assert_eq!(left.render(80).len(), 100_001);
}

#[test]
fn shared_subdocuments_survive_drop() {
    let shared = Doc::text("s").append(Doc::line()).append(Doc::text("t"));
    let a = shared.clone().group();
    let b = shared.clone().nest(2);
    drop(a);
    assert_eq!(b.render(80), "s\n  t");
    drop(b);
    assert_eq!(shared.group().render(80), "s t");
}

#[test]
fn following_group_decides_its_own_break() {
    let first = Doc::text("a").append(Doc::line()).append(Doc::text("b")).group();
    let second = Doc::text("c").append(Doc::hardline()).append(Doc::text("d")).group();
    assert_eq!(first.append(second).render(80), "a bc\nd");
}

#[test]
fn following_group_that_breaks_lets_the_line_fit() {
    // "a b" plus "c" fits in 5 columns; the second group breaks after "c".
    let first = Doc::text("a").append(Doc::line()).append(Doc::text("b")).group();
    let second = Doc::text("c").append(Doc::line()).append(Doc::text("dddddd")).group();
    assert_eq!(first.append(second).render(5), "a bc\ndddddd");
}

#[test]
fn following_text_too_wide_breaks_the_group() {
    let first = Doc::text("a").append(Doc::line()).append(Doc::text("b")).group();
    let doc = first.append(Doc::text("cccc"));
    assert_eq!(doc.render(5), "a\nbcccc");
}

#[test]
fn huge_width_is_capped_not_wrapped() {
    let doc = Doc::text("a").append(Doc::line()).append(Doc::text("b")).group();
    assert_eq!(doc.render(usize::MAX), "a b");
    assert_eq!(doc.render(isize::MAX as usize + 1), "a b");
}

#[test]
fn group_free_document_ignores_width() {
    let d = Doc::text("a").append(Doc::line().append(Doc::text("b")).nest(2)).append(Doc::softline());
    for width in [0, 3, 80, usize::MAX] {
        assert_eq!(d.render(width), "a\n  b\n");
    }
}

#[test]
fn no_break_is_invented() {
    let d = Doc::text("ab")
        .append(Doc::line())
        .append(Doc::text("c d").append(Doc::softline()).append(Doc::text("e")).group().nest(3))
        .append(Doc::hardline())
        .append(Doc::text("f"))
        .group();
    for width in [0, 4, 80] {
        let out = d.render(width);
        let kept: String = out.chars().filter(|c| *c != ' ' && *c != '\n').collect();
        assert_eq!(kept, "abcdef");
        let newlines = out.chars().filter(|c| *c == '\n').count();
        assert!(1 <= newlines && newlines <= 3);
    }
    assert_eq!(d.render(80), "ab\nc de\nf");
}

#[test]
fn flat_group_keeps_inner_groups_flat() {
    let inner = Doc::text("x").append(Doc::line()).append(Doc::text("y")).group();
    let outer = Doc::text("(").append(inner).append(Doc::line()).append(Doc::text(")")).group();
    assert_eq!(outer.render(7), "(x y )");
    assert_eq!(outer.render(5), "(x y\n)");
}

#[test]
fn debug_string_writes_indentation_in_decimal() {
    assert_eq!(Doc::nil().nest(0).debug_string(), "Nest(0, Nil)");
    assert_eq!(Doc::nil().nest(7).debug_string(), "Nest(7, Nil)");
    assert_eq!(Doc::nil().nest(1234567890).debug_string(), "Nest(1234567890, Nil)");
    assert_eq!(Doc::nil().nest(isize::MIN).debug_string(), format!("Nest({}, Nil)", isize::MIN));
    assert_eq!(Doc::nil().nest(isize::MAX).debug_string(), format!("Nest({}, Nil)", isize::MAX));
}

#[test]
fn group_free_document_is_its_broken_form() {
    let d = Doc::text("f")
        .append(Doc::softline().append(Doc::text("x")).nest(4))
        .append(Doc::line().append(Doc::text("y")).nest(-9))
        .append(Doc::hardline());
    assert_eq!(d.render(1000), "f\n    x\ny\n");
    assert_eq!(d.render(0), "f\n    x\ny\n");
}
