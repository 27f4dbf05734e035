//! Canonical textual rendering of syntax trees: lists are space-joined and
//! parenthesized, numbers are decimal, symbols are their raw bytes, strings
//! are wrapped in double quotes. The executable renderer is proved to match
//! the spec-level rendering, and re-parsing a rendering is proved to give
//! back the same tree (for the trees on which the grammar allows it).

use vstd::prelude::*;
use vstd::slice::slice_to_vec;

use crate::tokenize::AstNode;
use crate::tokenize::AstNodeView;
use crate::tokenize::AstTokenView;
use crate::tokenize::all_digit_bytes;
use crate::tokenize::cut_index;
use crate::tokenize::digits_value;
use crate::tokenize::first_close_index;
use crate::tokenize::first_forbidden_index;
use crate::tokenize::first_quote_index;
use crate::tokenize::first_ws_index;
use crate::tokenize::fits_isize;
use crate::tokenize::int_format_ok;
use crate::tokenize::int_text_value;
use crate::tokenize::is_digit_byte;
use crate::tokenize::is_forbidden_byte;
use crate::tokenize::is_ws;
use crate::tokenize::lemma_cut_index_bounds;
use crate::tokenize::lemma_first_close_index;
use crate::tokenize::lemma_first_forbidden_index;
use crate::tokenize::lemma_first_quote_index;
use crate::tokenize::lemma_first_ws_index;
use crate::tokenize::lemma_node_views_index;
use crate::tokenize::lemma_trim_noop;
use crate::tokenize::lemma_trim_shape;
use crate::tokenize::lemma_trim_start_shape;
use crate::tokenize::lemma_trim_end_shape;
use crate::tokenize::node_views;
use crate::tokenize::parses_as_isize;
use crate::tokenize::spec_atom;
use crate::tokenize::spec_parse;
use crate::tokenize::spec_tokenize;
use crate::tokenize::spec_tokenize_atom;
use crate::tokenize::spec_tokenize_list;
use crate::tokenize::spec_tokenize_string;
use crate::tokenize::trim;
use crate::tokenize::trim_end;
use crate::tokenize::trim_start;
use crate::parse_error::ParseErrorView;

verus! {

// ---------------------------------------------------------------------------
// The canonical rendering, at the level of sequences
// ---------------------------------------------------------------------------

/// The decimal digits of a non-negative number, most significant first.
pub open spec fn render_nat(n: int) -> Seq<u8>
    decreases n,
{
    if n < 0 {
        Seq::empty()
    } else if n < 10 {
        seq![(48 + n) as u8]
    } else {
        render_nat(n / 10).push((48 + n % 10) as u8)
    }
}

/// The decimal text of a signed number: a `-` sign for negatives.
pub open spec fn render_int(v: int) -> Seq<u8> {
    if v < 0 {
        seq![45u8] + render_nat(-v)
    } else {
        render_nat(v)
    }
}

/// The canonical text of one node.
pub open spec fn render_node(n: AstNodeView) -> Seq<u8>
    decreases n, 0int,
{
    match n {
        AstNodeView::Num(v) => render_int(v),
        AstNodeView::Sym(s) => s,
        AstNodeView::Str(s) => seq![34u8] + s + seq![34u8],
        AstNodeView::List(elems) => seq![40u8] + render_nodes(elems) + seq![41u8],
    }
}

/// The canonical text of a list's elements, joined by single spaces.
pub open spec fn render_nodes(elems: Seq<AstNodeView>) -> Seq<u8>
    decreases elems, 1int,
{
    if elems.len() == 0 {
        Seq::empty()
    } else if elems.len() == 1 {
        render_node(elems[0])
    } else {
        render_node(elems[0]) + seq![32u8] + render_nodes(elems.drop_first())
    }
}

// ---------------------------------------------------------------------------
// The executable renderer
// ---------------------------------------------------------------------------

/// Append a slice's bytes to a buffer.
fn append_bytes(out: &mut Vec<u8>, more: &[u8])
    ensures
        final(out)@ == old(out)@ + more@,
{
    let mut i: usize = 0;
    while i < more.len()
        invariant
            0 <= i <= more@.len(),
            out@ == old(out)@ + more@.take(i as int),
        decreases more@.len() - i,
    {
        out.push(more[i]);
        proof {
            assert(old(out)@ + more@.take(i as int) + seq![more@[i as int]] =~= old(out)@
                + more@.take(i + 1));
        }
        i = i + 1;
    }
    proof {
        assert(more@.take(more@.len() as int) =~= more@);
    }
}

/// The decimal text of a signed machine word.
fn render_isize(v: isize) -> (out: Vec<u8>)
    ensures
        out@ == render_int(v as int),
{
    let negative: bool = v < 0;
    let magnitude: u64 = if negative {
        (-(v as i128)) as u64
    } else {
        v as u64
    };
    let mut out: Vec<u8> = Vec::new();
    if magnitude == 0 {
        out.push(48);
        proof {
            assert(out@ =~= render_nat(0));
        }
    } else {
        proof {
            assert(render_nat(magnitude as int) + out@ =~= render_nat(magnitude as int));
        }
        let mut m: u64 = magnitude;
        while m > 0
            invariant
                0 <= m <= magnitude,
                render_nat(magnitude as int) == if m > 0 {
                    render_nat(m as int) + out@
                } else {
                    out@
                },
            decreases m,
        {
            let digit: u8 = 48 + (m % 10) as u8;
            let ghost out_prev = out@;
            out.insert(0, digit);
            proof {
                assert(out@ =~= seq![digit] + out_prev);
                if m >= 10 {
                    assert(render_nat(m as int) == render_nat(m as int / 10).push(digit));
                    assert(render_nat(m as int / 10).push(digit) + out_prev =~= render_nat(
                        m as int / 10,
                    ) + (seq![digit] + out_prev));
                } else {
                    assert(render_nat(m as int) =~= seq![digit]);
                }
            }
            m = m / 10;
        }
    }
    if negative {
        out.insert(0, 45);
        proof {
            assert(out@ =~= seq![45u8] + render_nat(-(v as int)));
        }
    }
    out
}

/// Rendering a list's elements grows from the right one element at a time.
pub proof fn lemma_render_nodes_snoc(elems: Seq<AstNodeView>, x: AstNodeView)
    ensures
        render_nodes(elems.push(x)) == if elems.len() == 0 {
            render_node(x)
        } else {
            render_nodes(elems) + seq![32u8] + render_node(x)
        },
    decreases elems.len(),
{
    if elems.len() == 0 {
        assert(elems.push(x)[0] == x);
    } else {
        lemma_render_nodes_snoc(elems.drop_first(), x);
        assert(elems.push(x).drop_first() =~= elems.drop_first().push(x));
        assert(elems.push(x)[0] == elems[0]);
        if elems.len() == 1 {
            assert(render_nodes(elems) == render_node(elems[0]));
        } else {
            assert(render_node(elems[0]) + seq![32u8] + (render_nodes(elems.drop_first())
                + seq![32u8] + render_node(x)) =~= (render_node(elems[0]) + seq![32u8]
                + render_nodes(elems.drop_first())) + seq![32u8] + render_node(x));
        }
    }
}

impl AstNode {
    /// The canonical text of this node, as bytes.
    pub fn display_bytes(&self) -> (out: Vec<u8>)
        ensures
            out@ == render_node(self@),
        decreases self,
    {
        match self {
            AstNode::Num(v) => render_isize(*v),
            AstNode::Sym(s) => slice_to_vec(s.as_slice()),
            AstNode::Str(s) => {
                let mut out: Vec<u8> = Vec::new();
                out.push(34);
                append_bytes(&mut out, s.as_slice());
                out.push(34);
                proof {
                    assert(out@ =~= seq![34u8] + s@ + seq![34u8]);
                }
                out
            },
            AstNode::List(nodes) => {
                let ghost elems = node_views(nodes@);
                proof {
                    lemma_node_views_index(nodes@);
                }
                let mut out: Vec<u8> = Vec::new();
                out.push(40);
                let mut i: usize = 0;
                proof {
                    assert(elems.take(0) =~= Seq::<AstNodeView>::empty());
                    assert(out@ =~= seq![40u8] + render_nodes(elems.take(0)));
                }
                while i < nodes.len()
                    invariant
                        0 <= i <= nodes@.len(),
                        *self == AstNode::List(*nodes),
                        elems == node_views(nodes@),
                        elems.len() == nodes@.len(),
                        forall|a: int| 0 <= a < nodes@.len() ==> elems[a] == nodes@[a]@,
                        out@ == seq![40u8] + render_nodes(elems.take(i as int)),
                    decreases nodes@.len() - i,
                {
                    if i > 0 {
                        out.push(32);
                    }
                    proof {
                        assert(self->List_0 == *nodes);
                        assert(decreases_to!(*self => self->List_0));
                        assert(decreases_to!(*nodes => nodes@));
                        assert(decreases_to!(nodes@ => nodes@[i as int]));
                    }
                    let rendered: Vec<u8> = nodes[i].display_bytes();
                    append_bytes(&mut out, rendered.as_slice());
                    proof {
                        lemma_render_nodes_snoc(elems.take(i as int), elems[i as int]);
                        assert(elems.take(i as int).push(elems[i as int]) =~= elems.take(i + 1));
                        if i == 0 {
                            assert(out@ =~= seq![40u8] + render_nodes(elems.take(i + 1)));
                        } else {
                            assert(seq![40u8] + render_nodes(elems.take(i as int)) + seq![32u8]
                                + render_node(elems[i as int]) =~= seq![40u8] + (render_nodes(
                                elems.take(i as int),
                            ) + seq![32u8] + render_node(elems[i as int])));
                        }
                    }
                    i = i + 1;
                }
                out.push(41);
                proof {
                    assert(elems.take(elems.len() as int) =~= elems);
                    assert(out@ =~= seq![40u8] + render_nodes(elems) + seq![41u8]);
                }
                out
            },
        }
    }
}

// ---------------------------------------------------------------------------
// Which trees the tokenizer itself can produce
// ---------------------------------------------------------------------------

/// Every node in a sequence could have come out of the tokenizer.
pub open spec fn wf_nodes(elems: Seq<AstNodeView>) -> bool
    decreases elems, 1int,
{
    if elems.len() == 0 {
        true
    } else {
        wf_nodes(elems.drop_last()) && wf_node(elems.last())
    }
}

/// The node could have come out of the tokenizer: numbers fit the machine
/// word, symbols are nonempty atom text that does not read as a number,
/// and string contents hold no quote.
pub open spec fn wf_node(n: AstNodeView) -> bool
    decreases n, 0int,
{
    match n {
        AstNodeView::Num(v) => fits_isize(v),
        AstNodeView::Sym(s) => s.len() > 0 && !is_digit_byte(s[0]) && s[0] != 45 && forall|i: int|
            0 <= i < s.len() ==> !is_forbidden_byte(#[trigger] s[i]) && !is_ws(s[i]),
        AstNodeView::Str(s) => forall|i: int| 0 <= i < s.len() ==> s[i] != 34,
        AstNodeView::List(elems) => wf_nodes(elems),
    }
}

/// A sequence of nodes is well formed exactly when each element is.
pub proof fn lemma_wf_nodes_index(elems: Seq<AstNodeView>)
    ensures
        wf_nodes(elems) <==> (forall|i: int| 0 <= i < elems.len() ==> wf_node(elems[i])),
    decreases elems.len(),
{
    if elems.len() > 0 {
        let front = elems.drop_last();
        lemma_wf_nodes_index(front);
        assert(forall|i: int| 0 <= i < front.len() ==> front[i] == elems[i]);
        if forall|i: int| 0 <= i < elems.len() ==> wf_node(elems[i]) {
            assert(forall|i: int| 0 <= i < front.len() ==> wf_node(front[i]));
        }
    }
}

/// Whether re-parsing the rendering of a node reproduces it, in a given
/// context. `closes` counts the parentheses that close directly after the
/// node's text; `then_ws` says whether whitespace follows that run (rather
/// than the end of the text). An atom followed by two or more parentheses
/// and then whitespace is cut wrongly by the grammar's tie-break rule, so
/// exactly that shape is excluded.
pub open spec fn safe_node(n: AstNodeView, closes: int, then_ws: bool) -> bool
    decreases n, 0int,
{
    match n {
        AstNodeView::Num(_) => !(closes >= 2 && then_ws),
        AstNodeView::Sym(_) => !(closes >= 2 && then_ws),
        AstNodeView::Str(_) => true,
        AstNodeView::List(elems) => safe_nodes(elems, closes, then_ws),
    }
}

/// Whether re-parsing works for every element of a list in the given
/// context: all but the last are followed by a space, and the last is
/// followed by one more closing parenthesis than the list itself.
pub open spec fn safe_nodes(elems: Seq<AstNodeView>, closes: int, then_ws: bool) -> bool
    decreases elems, 1int,
{
    if elems.len() == 0 {
        true
    } else if elems.len() == 1 {
        safe_node(elems[0], closes + 1, then_ws)
    } else {
        safe_node(elems[0], 0, true) && safe_nodes(elems.drop_first(), closes, then_ws)
    }
}

// ---------------------------------------------------------------------------
// Numbers render back to themselves
// ---------------------------------------------------------------------------

/// The digits of a non-negative number are digits, start nonempty, and are
/// worth the number.
proof fn lemma_render_nat_digits(n: int)
    requires
        n >= 0,
    ensures
        render_nat(n).len() >= 1,
        all_digit_bytes(render_nat(n)),
        digits_value(render_nat(n)) == n,
    decreases n,
{
    if n < 10 {
        assert(render_nat(n) =~= seq![(48 + n) as u8]);
        assert(digits_value(render_nat(n)) == n) by {
            assert(render_nat(n).drop_last() =~= Seq::<u8>::empty());
            assert(digits_value(Seq::<u8>::empty()) == 0);
            assert(render_nat(n).last() == (48 + n) as u8);
        }
    } else {
        lemma_render_nat_digits(n / 10);
        let r = render_nat(n);
        assert(r == render_nat(n / 10).push((48 + n % 10) as u8));
        assert(r.drop_last() =~= render_nat(n / 10));
        assert(all_digit_bytes(r)) by {
            assert(forall|i: int| 0 <= i < r.len() - 1 ==> r[i] == render_nat(n / 10)[i]);
        }
        assert(digits_value(r) == digits_value(render_nat(n / 10)) * 10 + (r.last() - 48));
        assert(n / 10 * 10 + n % 10 == n);
    }
}

/// The rendering of a machine-word number classifies back as exactly that
/// number: it has no forbidden or whitespace bytes, starts with a digit or
/// `-`, and parses to the same value.
proof fn lemma_atom_of_render_int(v: int)
    requires
        fits_isize(v),
    ensures
        render_int(v).len() >= 1,
        forall|i: int| 0 <= i < render_int(v).len() ==> !is_forbidden_byte(
            #[trigger] render_int(v)[i],
        ) && !is_ws(render_int(v)[i]),
        is_digit_byte(render_int(v)[0]) || render_int(v)[0] == 45,
        spec_atom(render_int(v)) == Ok::<AstNodeView, ParseErrorView>(AstNodeView::Num(v)),
{
    let r = render_int(v);
    if v < 0 {
        lemma_render_nat_digits(-v);
        assert(r =~= seq![45u8] + render_nat(-v));
        assert(r.skip(1) =~= render_nat(-v));
        assert(forall|i: int| 1 <= i < r.len() ==> is_digit_byte(#[trigger] r[i]));
        assert(int_format_ok(r));
        assert(int_text_value(r) == v);
    } else {
        lemma_render_nat_digits(v);
        assert(forall|i: int| 0 <= i < r.len() ==> is_digit_byte(#[trigger] r[i]));
        assert(int_format_ok(r));
        assert(int_text_value(r) == v);
    }
    lemma_first_forbidden_index(r);
    match first_forbidden_index(r) {
        Some(i) => {
            assert(is_forbidden_byte(r[i]));
            assert(false);
        },
        None => {},
    }
    assert(parses_as_isize(r));
}

// ---------------------------------------------------------------------------
// Small facts about renderings and trimming
// ---------------------------------------------------------------------------

/// An end-trimmed sequence ends in a non-whitespace byte.
proof fn lemma_end_trimmed_last(c: Seq<u8>)
    requires
        trim_end(c) == c,
        c.len() > 0,
    ensures
        !is_ws(c.last()),
{
    if is_ws(c.last()) {
        lemma_trim_end_shape(c.drop_last());
        assert(trim_end(c) == trim_end(c.drop_last()));
        assert(trim_end(c.drop_last()).len() <= c.len() - 1);
    }
}

/// Trimming an end-trimmed nonempty sequence only strips leading
/// whitespace, and keeps at least the last byte.
proof fn lemma_trim_of_end_trimmed(c: Seq<u8>)
    requires
        trim_end(c) == c,
        c.len() > 0,
    ensures
        trim(c) == trim_start(c),
        trim(c).len() > 0,
        trim(c).len() <= c.len(),
{
    lemma_end_trimmed_last(c);
    lemma_trim_start_shape(c);
    let ts = trim_start(c);
    assert(ts.len() > 0) by {
        if ts.len() == 0 {
            assert(is_ws(c[c.len() - 1]));
        }
    }
    assert(ts.last() == c.last());
    assert(trim_end(ts) == ts);
}

/// The canonical text of a well-formed node is nonempty, starts with a
/// byte that is neither whitespace nor `)`, and ends in non-whitespace.
proof fn lemma_render_shape(n: AstNodeView)
    requires
        wf_node(n),
    ensures
        render_node(n).len() >= 1,
        !is_ws(render_node(n)[0]),
        render_node(n)[0] != 41,
        !is_ws(render_node(n).last()),
{
    match n {
        AstNodeView::Num(v) => {
            lemma_atom_of_render_int(v);
            assert(render_node(n) == render_int(v));
            assert(!is_ws(render_int(v)[0]) && !is_forbidden_byte(render_int(v)[0]));
            assert(!is_ws(render_int(v).last()) && !is_forbidden_byte(render_int(v).last()));
        },
        AstNodeView::Sym(s) => {},
        AstNodeView::Str(s) => {
            let r = render_node(n);
            assert(r == seq![34u8] + s + seq![34u8]);
            assert(r[0] == 34);
            assert(r.last() == 34);
        },
        AstNodeView::List(elems) => {
            let r = render_node(n);
            assert(r == seq![40u8] + render_nodes(elems) + seq![41u8]);
            assert(r[0] == 40);
            assert(r.last() == 41);
        },
    }
}

/// The shape a continuation must have behind a node in context
/// `(closes, then_ws)`: that many closing parentheses, then either nothing
/// or a whitespace-led tail, with no trailing whitespace overall.
pub open spec fn good_cont(c: Seq<u8>, closes: int, then_ws: bool) -> bool {
    &&& closes >= 0
    &&& c.len() >= closes
    &&& (forall|j: int| 0 <= j < closes ==> c[j] == 41)
    &&& (then_ws <==> closes < c.len())
    &&& (closes < c.len() ==> is_ws(c[closes]))
    &&& trim_end(c) == c
}

// ---------------------------------------------------------------------------
// Re-parsing a rendering gives the tree back
// ---------------------------------------------------------------------------

/// Tokenizing the rendering of a well-formed node, followed by a
/// continuation of the promised shape, yields exactly that node with the
/// trimmed continuation as remainder.
proof fn lemma_parse_render(n: AstNodeView, c: Seq<u8>, closes: int, then_ws: bool)
    requires
        wf_node(n),
        safe_node(n, closes, then_ws),
        good_cont(c, closes, then_ws),
    ensures
        spec_tokenize(render_node(n) + c) == if c.len() == 0 {
            Ok::<AstTokenView, ParseErrorView>(AstTokenView::Parsed(n))
        } else {
            Ok::<AstTokenView, ParseErrorView>(AstTokenView::ParsedRest(n, trim(c)))
        },
    decreases n, 0int,
{
    let r = render_node(n);
    let s = r + c;
    lemma_render_shape(n);
    assert(s[0] == r[0]);
    assert(!is_ws(s.last())) by {
        if c.len() == 0 {
            assert(s.last() == r.last());
        } else {
            lemma_end_trimmed_last(c);
            assert(s.last() == c.last());
        }
    }
    lemma_trim_noop(s);
    if c.len() > 0 {
        lemma_trim_of_end_trimmed(c);
    }
    match n {
        AstNodeView::Num(v) => {
            lemma_atom_of_render_int(v);
            lemma_parse_render_atom_text(r, n, c, closes, then_ws);
        },
        AstNodeView::Sym(name) => {
            lemma_first_forbidden_index(r);
            match first_forbidden_index(r) {
                Some(i) => {
                    assert(is_forbidden_byte(r[i]));
                    assert(false);
                },
                None => {},
            }
            assert(spec_atom(r) == Ok::<AstNodeView, ParseErrorView>(n));
            lemma_parse_render_atom_text(r, n, c, closes, then_ws);
        },
        AstNodeView::Str(content) => {
            assert(s[0] == 34);
            let u = s.drop_first();
            assert(u =~= content + seq![34u8] + c);
            assert(spec_tokenize(s) == spec_tokenize_string(u));
            lemma_first_quote_index(u);
            let q = content.len() as int;
            assert(u[q] == 34);
            assert(forall|j: int| 0 <= j < q ==> u[j] == content[j]);
            match first_quote_index(u) {
                None => {
                    assert(false);
                },
                Some(qq) => {
                    assert(qq == q);
                },
            }
            assert(u.take(q) =~= content);
            assert(u.skip(q + 1) =~= c);
            if c.len() == 0 {
            } else {
                assert(u.skip(q + 1)[0] == c[0]);
                if closes >= 1 {
                    assert(c[0] == 41);
                } else {
                    assert(is_ws(c[0]));
                }
            }
        },
        AstNodeView::List(elems) => {
            assert(s[0] == 40);
            let inner = s.drop_first();
            assert(inner =~= render_nodes(elems) + seq![41u8] + c);
            assert(trim(inner) == inner) by {
                if elems.len() == 0 {
                    assert(inner[0] == 41);
                } else {
                    lemma_wf_nodes_index(elems);
                    lemma_render_shape(elems[0]);
                    if elems.len() == 1 {
                        assert(render_nodes(elems) == render_node(elems[0]));
                    }
                    assert(render_nodes(elems)[0] == render_node(elems[0])[0]);
                    assert(inner[0] == render_nodes(elems)[0]);
                }
                assert(inner.last() == s.last());
                lemma_trim_noop(inner);
            }
            assert(spec_tokenize(s) == spec_tokenize_list(trim(inner), Seq::empty()));
            lemma_parse_render_elements(elems, Seq::empty(), c, closes, then_ws);
            assert(Seq::<AstNodeView>::empty() + elems =~= elems);
        },
    }
}

/// The common atom case: `r` is atom text (no whitespace, no forbidden
/// characters) that classifies as the node `n`.
proof fn lemma_parse_render_atom_text(
    r: Seq<u8>,
    n: AstNodeView,
    c: Seq<u8>,
    closes: int,
    then_ws: bool,
)
    requires
        r.len() >= 1,
        forall|i: int| 0 <= i < r.len() ==> !is_forbidden_byte(#[trigger] r[i]) && !is_ws(r[i]),
        spec_atom(r) == Ok::<AstNodeView, ParseErrorView>(n),
        !(closes >= 2 && then_ws),
        good_cont(c, closes, then_ws),
        trim(r + c) == r + c,
        c.len() > 0 ==> trim(c).len() > 0,
    ensures
        spec_tokenize(r + c) == if c.len() == 0 {
            Ok::<AstTokenView, ParseErrorView>(AstTokenView::Parsed(n))
        } else {
            Ok::<AstTokenView, ParseErrorView>(AstTokenView::ParsedRest(n, trim(c)))
        },
{
    let s = r + c;
    let a = r.len() as int;
    assert(forall|j: int| 0 <= j < a ==> s[j] == r[j]);
    assert(forall|j: int| a <= j < s.len() ==> s[j] == c[j - a]);
    assert(s[0] == r[0]);
    assert(s[0] != 41 && s[0] != 34 && s[0] != 40) by {
        assert(!is_forbidden_byte(r[0]));
    }
    assert(spec_tokenize(s) == spec_tokenize_atom(s));
    lemma_first_ws_index(s);
    lemma_first_close_index(s);
    assert(cut_index(s) == a) by {
        if then_ws {
            assert(is_ws(s[a + closes]));
            assert(forall|j: int| 0 <= j < a + closes ==> !is_ws(#[trigger] s[j]));
            match first_ws_index(s) {
                None => {
                    assert(false);
                },
                Some(w) => {
                    assert(w == a + closes);
                },
            }
            if closes == 0 {
                match first_close_index(s) {
                    None => {},
                    Some(p) => {
                        assert(s[p] == 41);
                        assert(p > a);
                    },
                }
            } else {
                assert(s[a] == 41);
                assert(forall|j: int| 0 <= j < a ==> s[j] != 41);
                match first_close_index(s) {
                    None => {
                        assert(false);
                    },
                    Some(p) => {
                        assert(p == a);
                    },
                }
            }
        } else {
            assert(c.len() == closes);
            assert(forall|j: int| 0 <= j < s.len() ==> !is_ws(#[trigger] s[j]));
            match first_ws_index(s) {
                None => {},
                Some(w) => {
                    assert(false);
                },
            }
            if closes == 0 {
                assert(forall|j: int| 0 <= j < s.len() ==> s[j] != 41);
                match first_close_index(s) {
                    None => {},
                    Some(p) => {
                        assert(false);
                    },
                }
            } else {
                assert(s[a] == 41);
                assert(forall|j: int| 0 <= j < a ==> s[j] != 41);
                match first_close_index(s) {
                    None => {
                        assert(false);
                    },
                    Some(p) => {
                        assert(p == a);
                    },
                }
            }
        }
    }
    assert(s.take(a) =~= r);
    assert(s.skip(a) =~= c);
    if c.len() == 0 {
        assert(trim(c) =~= Seq::<u8>::empty());
    }
}

/// Tokenizing the rendered elements of a list, then the closing
/// parenthesis, then a continuation, closes the list with exactly those
/// elements appended to the ones already read.
proof fn lemma_parse_render_elements(
    elems: Seq<AstNodeView>,
    acc: Seq<AstNodeView>,
    c: Seq<u8>,
    closes: int,
    then_ws: bool,
)
    requires
        wf_nodes(elems),
        safe_nodes(elems, closes, then_ws),
        good_cont(c, closes, then_ws),
    ensures
        spec_tokenize_list(render_nodes(elems) + seq![41u8] + c, acc) == if c.len() == 0 {
            Ok::<AstTokenView, ParseErrorView>(AstTokenView::Parsed(AstNodeView::List(acc + elems)))
        } else {
            Ok::<AstTokenView, ParseErrorView>(
                AstTokenView::ParsedRest(AstNodeView::List(acc + elems), trim(c)),
            )
        },
    decreases elems, 1int,
{
    let rem = render_nodes(elems) + seq![41u8] + c;
    if c.len() > 0 {
        lemma_trim_of_end_trimmed(c);
    }
    if elems.len() == 0 {
        assert(rem =~= seq![41u8] + c);
        assert(rem[0] == 41);
        assert(rem.drop_first() =~= c);
        assert(acc + elems =~= acc);
    } else {
        lemma_wf_nodes_index(elems);
        let e0 = elems[0];
        let rest = elems.drop_first();
        lemma_render_shape(e0);
        assert(forall|i: int| 0 <= i < rest.len() ==> rest[i] == elems[i + 1]);
        assert(wf_nodes(rest)) by {
            lemma_wf_nodes_index(rest);
        }
        if rest.len() == 0 {
            let c_elem = seq![41u8] + c;
            assert(render_nodes(elems) == render_node(e0));
            assert(rem =~= render_node(e0) + c_elem);
            assert(good_cont(c_elem, closes + 1, then_ws)) by {
                assert(forall|j: int| 0 <= j < closes + 1 ==> c_elem[j] == 41);
                assert(closes + 1 < c_elem.len() ==> is_ws(c_elem[closes + 1]));
                assert(c_elem.len() > 0 && !is_ws(c_elem.last())) by {
                    if c.len() == 0 {
                        assert(c_elem.last() == 41);
                    } else {
                        lemma_end_trimmed_last(c);
                        assert(c_elem.last() == c.last());
                    }
                }
                lemma_end_trimmed_noop(c_elem);
            }
            assert(safe_node(e0, closes + 1, then_ws));
            lemma_parse_render(e0, c_elem, closes + 1, then_ws);
            assert(spec_tokenize(rem) == Ok::<AstTokenView, ParseErrorView>(
                AstTokenView::ParsedRest(e0, trim(c_elem)),
            ));
            assert(trim(c_elem) == c_elem) by {
                assert(c_elem[0] == 41);
                assert(!is_ws(c_elem[0]));
                assert(!is_ws(c_elem.last())) by {
                    if c.len() == 0 {
                        assert(c_elem.last() == 41);
                    } else {
                        lemma_end_trimmed_last(c);
                        assert(c_elem.last() == c.last());
                    }
                }
                lemma_trim_noop(c_elem);
            }
            assert(rem[0] == render_node(e0)[0]);
            assert(rem[0] != 41);
            assert(c_elem.len() < rem.len());
            lemma_parse_render_elements(rest, acc.push(e0), c, closes, then_ws);
            assert(render_nodes(rest) + seq![41u8] + c =~= c_elem) by {
                assert(rest =~= Seq::<AstNodeView>::empty());
            }
            assert(acc.push(e0) + Seq::<AstNodeView>::empty() =~= acc + elems) by {
                assert(elems =~= seq![e0]);
            }
        } else {
            let tail = render_nodes(rest) + seq![41u8] + c;
            let c_elem = seq![32u8] + tail;
            assert(render_nodes(elems) == render_node(e0) + seq![32u8] + render_nodes(rest));
            assert(rem =~= render_node(e0) + c_elem);
            lemma_render_shape(rest[0]);
            assert(render_nodes(rest)[0] == render_node(rest[0])[0]) by {
                if rest.len() == 1 {
                    assert(render_nodes(rest) == render_node(rest[0]));
                }
            }
            assert(tail[0] == render_nodes(rest)[0]);
            assert(!is_ws(tail[0]) && tail[0] != 41);
            assert(!is_ws(c_elem.last()) && c_elem.len() > 0) by {
                if c.len() == 0 {
                    assert(c_elem.last() == 41);
                } else {
                    lemma_end_trimmed_last(c);
                    assert(c_elem.last() == c.last());
                }
            }
            assert(good_cont(c_elem, 0, true)) by {
                assert(is_ws(c_elem[0]));
                lemma_end_trimmed_noop(c_elem);
            }
            assert(safe_node(e0, 0, true));
            lemma_parse_render(e0, c_elem, 0, true);
            assert(spec_tokenize(rem) == Ok::<AstTokenView, ParseErrorView>(
                AstTokenView::ParsedRest(e0, trim(c_elem)),
            ));
            assert(trim(c_elem) == tail) by {
                assert(c_elem.drop_first() =~= tail);
                assert(trim_start(c_elem) == trim_start(tail));
                assert(trim_start(tail) == tail);
                assert(!is_ws(tail.last())) by {
                    assert(tail.last() == c_elem.last());
                }
                lemma_end_trimmed_noop(tail);
            }
            assert(rem[0] == render_node(e0)[0]);
            assert(rem[0] != 41);
            assert(tail.len() < rem.len());
            assert(safe_nodes(rest, closes, then_ws));
            lemma_parse_render_elements(rest, acc.push(e0), c, closes, then_ws);
            assert(acc.push(e0) + rest =~= acc + elems);
        }
    }
}

/// A sequence ending in a non-whitespace byte is already end-trimmed.
proof fn lemma_end_trimmed_noop(c: Seq<u8>)
    requires
        c.len() > 0,
        !is_ws(c.last()),
    ensures
        trim_end(c) == c,
{
}

// ---------------------------------------------------------------------------
// The tokenizer only produces well-formed trees
// ---------------------------------------------------------------------------

/// Whatever node the tokenizer hands back is well formed.
pub proof fn lemma_tokenize_wf(s: Seq<u8>)
    ensures
        match spec_tokenize(s) {
            Ok(AstTokenView::Parsed(node)) => wf_node(node),
            Ok(AstTokenView::ParsedRest(node, _)) => wf_node(node),
            Err(_) => true,
        },
    decreases s.len(), 1int,
{
    let t = trim(s);
    lemma_trim_shape(s);
    if t.len() == 0 || t[0] == 41 {
    } else if t[0] == 34 {
        let u = t.drop_first();
        lemma_first_quote_index(u);
        match first_quote_index(u) {
            None => {},
            Some(q) => {
                assert(forall|i: int| 0 <= i < q ==> u.take(q)[i] == u[i]);
            },
        }
    } else if t[0] != 40 {
        lemma_cut_index_bounds(t);
        lemma_first_ws_index(t);
        lemma_first_close_index(t);
        let cut = cut_index(t);
        let to_parse = t.take(cut);
        assert(forall|j: int| 0 <= j < cut ==> !is_ws(#[trigger] t[j])) by {
            match (first_close_index(t), first_ws_index(t)) {
                (Some(p), Some(w)) => {
                    assert(cut <= w);
                },
                (None, Some(w)) => {},
                (Some(p), None) => {},
                (None, None) => {},
            }
        }
        lemma_first_forbidden_index(to_parse);
        match first_forbidden_index(to_parse) {
            Some(_) => {},
            None => {
                assert(forall|j: int| 0 <= j < to_parse.len() ==> to_parse[j] == t[j]);
                assert(to_parse.len() > 0);
            },
        }
    } else {
        lemma_trim_shape(t.drop_first());
        lemma_tokenize_list_wf(trim(t.drop_first()), Seq::empty());
    }
}

/// Whatever list the element loop closes is made of well-formed nodes.
proof fn lemma_tokenize_list_wf(rem: Seq<u8>, acc: Seq<AstNodeView>)
    requires
        wf_nodes(acc),
    ensures
        match spec_tokenize_list(rem, acc) {
            Ok(AstTokenView::Parsed(node)) => wf_node(node),
            Ok(AstTokenView::ParsedRest(node, _)) => wf_node(node),
            Err(_) => true,
        },
    decreases rem.len() + 1, 0int,
{
    if rem.len() == 0 {
    } else if rem[0] == 41 {
    } else {
        lemma_tokenize_wf(rem);
        match spec_tokenize(rem) {
            Ok(AstTokenView::ParsedRest(node, rest)) => {
                if trim(rest).len() < rem.len() {
                    assert(wf_nodes(acc.push(node))) by {
                        assert(acc.push(node).drop_last() =~= acc);
                        assert(acc.push(node).last() == node);
                    }
                    lemma_tokenize_list_wf(trim(rest), acc.push(node));
                }
            },
            _ => {},
        }
    }
}

// ---------------------------------------------------------------------------
// Canonical form
// ---------------------------------------------------------------------------

/// Parsing and then rendering is a canonical form: re-parsing the rendered
/// text gives back exactly the same tree, so rendering it again changes
/// nothing (whitespace has been normalized once and for all).
///
/// One family of trees must be excluded, and `safe_node` names it: the
/// grammar's tie-break rule mis-cuts an atom whose rendering is followed
/// by two or more closing parentheses and then whitespace, so such a
/// rendering does not parse at all.
pub proof fn lemma_display_parse_idempotent(s: Seq<u8>)
    requires
        spec_parse(s) matches Ok(node) && safe_node(node, 0, false),
    ensures
        spec_parse(render_node(spec_parse(s)->Ok_0)) == spec_parse(s),
{
    let node = spec_parse(s)->Ok_0;
    lemma_tokenize_wf(s);
    assert(wf_node(node));
    assert(trim_end(Seq::<u8>::empty()) == Seq::<u8>::empty());
    lemma_parse_render(node, Seq::empty(), 0, false);
    assert(render_node(node) + Seq::<u8>::empty() =~= render_node(node));
}

} // verus!