//! The structural debug view of a document, built without recursion.

use vstd::prelude::*;

use crate::doc::{lemma_unfold, Doc, Node};
use crate::model::{debug_model, decimal, digit, digits, size, str_debug};

verus! {

/// `format!("{:?}", s)` (std `Debug` for `str`): the string quoted, with
/// Rust's escapes; its exact form is named by `str_debug`.
#[verifier::external_body]
fn quoted(s: &str) -> (r: String)
    ensures
        r@ == str_debug(s@),
{
    format!("{:?}", s)
}

/// The digit `d` (0 to 9) as a one-character string.
fn digit_str(d: u64) -> (s: &'static str)
    requires
        d < 10,
    ensures
        s@ == seq![digit(d as int)],
{
    let all: &'static str = "0123456789";
    proof {
        reveal_strlit("0123456789");
        assert(all.is_ascii());
    }
    let s = all.substring_ascii(d as usize, d as usize + 1);
    assert(s@ =~= seq![digit(d as int)]);
    s
}

/// The decimal form of `n`: its digits, with a leading `-` if negative.
fn decimal_string(n: isize) -> (r: String)
    ensures
        r@ == decimal(n as int),
{
    let mut out = String::new();
    let m: u64 = if n < 0 {
        let minus: &'static str = "-";
        proof {
            reveal_strlit("-");
        }
        out.append(minus);
        (0i128 - n as i128) as u64
    } else {
        n as u64
    };
    assert(m as int == if n < 0 { -(n as int) } else { n as int });
    let ghost prefix = out@;
    // Peel off digits, least significant first.
    let mut lows: Vec<u64> = Vec::new();
    let mut cur: u64 = m;
    while cur >= 10
        invariant
            digits(m as nat) == digits(cur as nat) + Seq::new(lows@.len(), |k: int| digit(lows@[lows@.len() - 1 - k] as int)),
            forall|k: int| 0 <= k < lows@.len() ==> lows@[k] < 10,
        decreases cur,
    {
        let ghost before = Seq::new(lows@.len(), |k: int| digit(lows@[lows@.len() - 1 - k] as int));
        assert(digits(cur as nat) == digits((cur / 10) as nat).push(digit((cur % 10) as int)));
        lows.push(cur % 10);
        cur = cur / 10;
        assert(Seq::new(lows@.len(), |k: int| digit(lows@[lows@.len() - 1 - k] as int)) =~= seq![
            digit(lows@[lows@.len() - 1] as int),
        ] + before);
    }
    assert(digits(cur as nat) =~= seq![digit(cur as int)]);
    out.append(digit_str(cur));
    let mut i: usize = lows.len();
    while i > 0
        invariant
            i <= lows@.len(),
            forall|k: int| 0 <= k < lows@.len() ==> lows@[k] < 10,
            prefix + digits(m as nat) == out@ + Seq::new(i as nat, |k: int| digit(lows@[i - 1 - k] as int)),
        decreases i,
    {
        i = i - 1;
        out.append(digit_str(lows[i]));
        assert(Seq::new((i + 1) as nat, |k: int| digit(lows@[i - k] as int)) =~= seq![
            digit(lows@[i as int] as int),
        ] + Seq::new(i as nat, |k: int| digit(lows@[i - 1 - k] as int)));
    }
    assert(out@ + Seq::new(0, |k: int| digit(lows@[-1 - k] as int)) =~= out@);
    out
}

/// Pending debug output: a sub-document or a literal piece of punctuation.
enum Step<'a> {
    Node(&'a Doc),
    Str(&'static str),
}

spec fn step_text<'a>(s: Step<'a>) -> Seq<char> {
    match s {
        Step::Node(d) => debug_model(d@),
        Step::Str(p) => p@,
    }
}

/// The output still owed by the work stack, top (last) first.
spec fn steps_text<'a>(ss: Seq<Step<'a>>) -> Seq<char>
    decreases ss.len(),
{
    if ss.len() == 0 {
        seq![]
    } else {
        step_text(ss.last()) + steps_text(ss.drop_last())
    }
}

spec fn step_weight<'a>(s: Step<'a>) -> nat {
    match s {
        Step::Node(d) => 3 * size(d@),
        Step::Str(_) => 1,
    }
}

spec fn steps_weight<'a>(ss: Seq<Step<'a>>) -> nat
    decreases ss.len(),
{
    if ss.len() == 0 {
        0
    } else {
        step_weight(ss.last()) + steps_weight(ss.drop_last())
    }
}

proof fn lemma_push<'a>(ss: Seq<Step<'a>>, s: Step<'a>)
    ensures
        steps_text(ss.push(s)) == step_text(s) + steps_text(ss),
        steps_weight(ss.push(s)) == step_weight(s) + steps_weight(ss),
{
    assert(ss.push(s).drop_last() =~= ss);
}

impl Doc {
    /// A structural view of the document tree, such as
    /// `Group(Cat(Text("a"), Line))`, built with an explicit work stack so a
    /// deep document cannot overflow the call stack.
    #[verifier::spinoff_prover]
    #[verifier::rlimit(40)]
    pub fn debug_string(&self) -> (s: String)
        ensures
            s@ == debug_model(self@),
    {
        let mut out = String::new();
        let mut stack: Vec<Step> = Vec::new();
        stack.push(Step::Node(self));
        proof {
            lemma_push(Seq::<Step>::empty(), Step::Node(self));
            assert(stack@ =~= Seq::<Step>::empty().push(Step::Node(self)));
            assert(steps_text(Seq::<Step>::empty()) =~= Seq::<char>::empty());
            assert(steps_text(stack@) =~= debug_model(self@));
        }
        while stack.len() > 0
            invariant
                debug_model(self@) == out@ + steps_text(stack@),
            decreases steps_weight(stack@),
        {
            let ghost out0 = out@;
            let ghost s0 = stack@;
            let step = stack.pop().unwrap();
            let ghost rest = stack@;
            assert(s0.drop_last() =~= rest);
            assert(steps_text(s0) == step_text(step) + steps_text(rest));
            match step {
                Step::Str(p) => {
                    out.append(p);
                    assert(out0 + steps_text(s0) =~= out@ + steps_text(rest));
                },
                Step::Node(d) => {
                    proof {
                        lemma_unfold(d);
                    }
                    match &d.0 {
                        None => {
                            out.append("Nil");
                            assert(out0 + steps_text(s0) =~= out@ + steps_text(rest));
                        },
                        Some(rc) => match &**rc {
                            Node::Text(l) => {
                                out.append("Text(");
                                let q = quoted(l.as_str());
                                out.append(q.as_str());
                                out.append(")");
                                assert(out0 + steps_text(s0) =~= out@ + steps_text(rest));
                            },
                            Node::Line => {
                                out.append("Line");
                                assert(out0 + steps_text(s0) =~= out@ + steps_text(rest));
                            },
                            Node::SoftLine => {
                                out.append("SoftLine");
                                assert(out0 + steps_text(s0) =~= out@ + steps_text(rest));
                            },
                            Node::HardLine => {
                                out.append("HardLine");
                                assert(out0 + steps_text(s0) =~= out@ + steps_text(rest));
                            },
                            Node::Cat(a, b) => {
                                out.append("Cat(");
                                stack.push(Step::Str(")"));
                                stack.push(Step::Node(b));
                                stack.push(Step::Str(", "));
                                stack.push(Step::Node(a));
                                proof {
                                    let s1 = rest.push(Step::Str(")"));
                                    let s2 = s1.push(Step::Node(b));
                                    let s3 = s2.push(Step::Str(", "));
                                    lemma_push(rest, Step::Str(")"));
                                    lemma_push(s1, Step::Node(b));
                                    lemma_push(s2, Step::Str(", "));
                                    lemma_push(s3, Step::Node(a));
                                    assert(stack@ =~= s3.push(Step::Node(a)));
                                }
                                assert(out0 + steps_text(s0) =~= out@ + steps_text(stack@));
                            },
                            Node::Nest(j, x) => {
                                out.append("Nest(");
                                let n = decimal_string(*j);
                                out.append(n.as_str());
                                out.append(", ");
                                stack.push(Step::Str(")"));
                                stack.push(Step::Node(x));
                                proof {
                                    let s1 = rest.push(Step::Str(")"));
                                    lemma_push(rest, Step::Str(")"));
                                    lemma_push(s1, Step::Node(x));
                                    assert(stack@ =~= s1.push(Step::Node(x)));
                                }
                                assert(out0 + steps_text(s0) =~= out@ + steps_text(stack@));
                            },
                            Node::Group(x) => {
                                out.append("Group(");
                                stack.push(Step::Str(")"));
                                stack.push(Step::Node(x));
                                proof {
                                    let s1 = rest.push(Step::Str(")"));
                                    lemma_push(rest, Step::Str(")"));
                                    lemma_push(s1, Step::Node(x));
                                    assert(stack@ =~= s1.push(Step::Node(x)));
                                }
                                assert(out0 + steps_text(s0) =~= out@ + steps_text(stack@));
                            },
                        },
                    }
                },
            }
        }
        assert(out@ + steps_text(stack@) =~= out@);
        out
    }
}

} // verus!
