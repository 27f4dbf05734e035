//! The tokenizer: a recursive-descent S-expression reader that turns a byte
//! buffer into one parsed node plus an optional unconsumed remainder.
//!
//! The grammar and the algorithm are both written down as spec functions
//! over `Seq<u8>`; the executable tokenizer is proved to return exactly what
//! the spec-level tokenizer returns.

use vstd::prelude::*;
use vstd::slice::slice_subrange;
use vstd::slice::slice_to_vec;

use crate::parse_error::ParseError;
use crate::parse_error::ParseErrorView;

verus! {

/// One node of the abstract syntax tree.
#[derive(Debug, Eq, PartialEq)]
pub enum AstNode {
    /// An ordered, order-preserving sequence of child nodes.
    List(Vec<AstNode>),
    /// A signed integer atom.
    Num(isize),
    /// A symbol atom: the operator or identifier name, as raw bytes.
    Sym(Vec<u8>),
    /// A string literal: the bytes between the quotes, with no escape processing.
    Str(Vec<u8>),
}

/// The mathematical value of an [`AstNode`].
pub enum AstNodeView {
    List(Seq<AstNodeView>),
    Num(int),
    Sym(Seq<u8>),
    Str(Seq<u8>),
}

/// The views of a sequence of nodes, in order.
pub open spec fn node_views(nodes: Seq<AstNode>) -> Seq<AstNodeView>
    decreases nodes, 1int,
{
    if nodes.len() == 0 {
        Seq::empty()
    } else {
        node_views(nodes.subrange(0, nodes.len() - 1)).push(nodes.last()@)
    }
}

impl View for AstNode {
    type V = AstNodeView;

    open spec fn view(&self) -> AstNodeView
        decreases self, 0int,
    {
        match self {
            AstNode::List(nodes) => AstNodeView::List(node_views(nodes@)),
            AstNode::Num(n) => AstNodeView::Num(*n as int),
            AstNode::Sym(bytes) => AstNodeView::Sym(bytes@),
            AstNode::Str(bytes) => AstNodeView::Str(bytes@),
        }
    }
}

/// A transient parse result: either the entire input was consumed by exactly
/// one node, or a prefix produced a node and the trimmed unconsumed suffix
/// remains to be parsed as the next sibling.
#[derive(Debug, Eq, PartialEq)]
pub enum AstToken {
    Parsed(AstNode),
    ParsedRest((AstNode, Vec<u8>)),
}

/// The mathematical value of an [`AstToken`].
pub enum AstTokenView {
    Parsed(AstNodeView),
    ParsedRest(AstNodeView, Seq<u8>),
}

impl View for AstToken {
    type V = AstTokenView;

    open spec fn view(&self) -> AstTokenView {
        match self {
            AstToken::Parsed(node) => AstTokenView::Parsed(node@),
            AstToken::ParsedRest((node, rest)) => AstTokenView::ParsedRest(node@, rest@),
        }
    }
}

// ---------------------------------------------------------------------------
// Character classes of the surface grammar
// ---------------------------------------------------------------------------

/// ASCII whitespace: space, tab, line feed, form feed, carriage return.
pub open spec fn is_ws(c: u8) -> bool {
    c == 32 || c == 9 || c == 10 || c == 12 || c == 13
}

/// The characters that may not occur inside an atom: `(`, `)`, `"`, `'`.
pub open spec fn is_forbidden_byte(c: u8) -> bool {
    c == 40 || c == 41 || c == 34 || c == 39
}

/// An ASCII decimal digit.
pub open spec fn is_digit_byte(c: u8) -> bool {
    48 <= c && c <= 57
}

/// Every byte of the sequence is ASCII.
pub open spec fn is_ascii_bytes(s: Seq<u8>) -> bool {
    forall|i: int| 0 <= i < s.len() ==> s[i] < 128
}

/// ASCII bytes read as text.
pub open spec fn chars_of_bytes(s: Seq<u8>) -> Seq<char> {
    s.map(|_i: int, c: u8| c as char)
}

// ---------------------------------------------------------------------------
// Trimming ASCII whitespace
// ---------------------------------------------------------------------------

/// The sequence with its leading ASCII whitespace removed.
pub open spec fn trim_start(s: Seq<u8>) -> Seq<u8>
    decreases s.len(),
{
    if s.len() > 0 && is_ws(s[0]) {
        trim_start(s.drop_first())
    } else {
        s
    }
}

/// The sequence with its trailing ASCII whitespace removed.
pub open spec fn trim_end(s: Seq<u8>) -> Seq<u8>
    decreases s.len(),
{
    if s.len() > 0 && is_ws(s.last()) {
        trim_end(s.drop_last())
    } else {
        s
    }
}

/// The sequence with ASCII whitespace removed from both ends.
pub open spec fn trim(s: Seq<u8>) -> Seq<u8> {
    trim_end(trim_start(s))
}

/// `trim_start` keeps a suffix: it only removes leading whitespace bytes.
pub proof fn lemma_trim_start_shape(s: Seq<u8>)
    ensures
        trim_start(s).len() <= s.len(),
        trim_start(s) == s.skip(s.len() - trim_start(s).len()),
        forall|j: int| 0 <= j < s.len() - trim_start(s).len() ==> is_ws(s[j]),
        trim_start(s).len() > 0 ==> !is_ws(trim_start(s)[0]),
    decreases s.len(),
{
    if s.len() > 0 && is_ws(s[0]) {
        lemma_trim_start_shape(s.drop_first());
        assert(trim_start(s) == s.skip(s.len() - trim_start(s).len()));
        assert forall|j: int| 0 <= j < s.len() - trim_start(s).len() implies is_ws(s[j]) by {
            if j > 0 {
                assert(s[j] == s.drop_first()[j - 1]);
            }
        }
    } else {
        assert(s.skip(0) == s);
    }
}

/// `trim_end` keeps a prefix: it only removes trailing whitespace bytes.
pub proof fn lemma_trim_end_shape(s: Seq<u8>)
    ensures
        trim_end(s).len() <= s.len(),
        trim_end(s) == s.take(trim_end(s).len() as int),
        forall|j: int| trim_end(s).len() <= j < s.len() ==> is_ws(s[j]),
        trim_end(s).len() > 0 ==> !is_ws(trim_end(s).last()),
    decreases s.len(),
{
    if s.len() > 0 && is_ws(s.last()) {
        lemma_trim_end_shape(s.drop_last());
        assert(trim_end(s) == s.take(trim_end(s).len() as int));
        assert forall|j: int| trim_end(s).len() <= j < s.len() implies is_ws(s[j]) by {
            if j < s.len() - 1 {
                assert(s[j] == s.drop_last()[j]);
            }
        }
    } else {
        assert(s.take(s.len() as int) == s);
    }
}

/// Trimming removes whitespace bytes at the ends and nothing else.
pub proof fn lemma_trim_shape(s: Seq<u8>)
    ensures
        trim(s).len() <= s.len(),
        trim(s).len() > 0 ==> !is_ws(trim(s)[0]),
        trim(s).len() > 0 ==> !is_ws(trim(s).last()),
        exists|lo: int, hi: int|
            0 <= lo <= hi <= s.len() && trim(s) == s.subrange(lo, hi)
                && (forall|j: int| 0 <= j < lo ==> is_ws(s[j]))
                && (forall|j: int| hi <= j < s.len() ==> is_ws(s[j])),
{
    lemma_trim_start_shape(s);
    lemma_trim_end_shape(trim_start(s));
    let lo = s.len() - trim_start(s).len();
    let hi = lo + trim(s).len();
    assert(trim(s) == s.subrange(lo, hi)) by {
        assert(trim(s) == trim_start(s).take(trim(s).len() as int));
        assert(trim_start(s) == s.skip(lo));
        assert(s.skip(lo).take(trim(s).len() as int) =~= s.subrange(lo, hi));
    }
    assert forall|j: int| hi <= j < s.len() implies is_ws(s[j]) by {
        assert(s[j] == trim_start(s)[j - lo]);
    }
    assert(0 <= lo <= hi <= s.len() && trim(s) == s.subrange(lo, hi)
        && (forall|j: int| 0 <= j < lo ==> is_ws(s[j]))
        && (forall|j: int| hi <= j < s.len() ==> is_ws(s[j])));
}

/// A sequence whose ends hold no whitespace is already trimmed.
pub proof fn lemma_trim_noop(s: Seq<u8>)
    requires
        s.len() > 0 ==> !is_ws(s[0]) && !is_ws(s.last()),
    ensures
        trim(s) == s,
{
    if s.len() == 0 {
        assert(trim_start(s) == s);
        assert(trim_end(s) == s);
    } else {
        assert(trim_start(s) == s);
        assert(trim_end(s) == s);
    }
}

/// Trimming twice is trimming once.
pub proof fn lemma_trim_idempotent(s: Seq<u8>)
    ensures
        trim(trim(s)) == trim(s),
{
    lemma_trim_shape(s);
    if trim(s).len() == 0 {
        assert(trim_start(trim(s)) == trim(s));
        assert(trim_end(trim(s)) == trim(s));
    } else {
        lemma_trim_noop(trim(s));
    }
}

// ---------------------------------------------------------------------------
// Locating the first byte of a class
// ---------------------------------------------------------------------------

/// The index of the first `)` byte, if any.
pub open spec fn first_close_index(s: Seq<u8>) -> Option<int>
    decreases s.len(),
{
    if s.len() == 0 {
        None
    } else if s[0] == 41 {
        Some(0int)
    } else {
        match first_close_index(s.drop_first()) {
            None => None,
            Some(i) => Some(i + 1),
        }
    }
}

/// The index of the first ASCII whitespace byte, if any.
pub open spec fn first_ws_index(s: Seq<u8>) -> Option<int>
    decreases s.len(),
{
    if s.len() == 0 {
        None
    } else if is_ws(s[0]) {
        Some(0int)
    } else {
        match first_ws_index(s.drop_first()) {
            None => None,
            Some(i) => Some(i + 1),
        }
    }
}

/// The index of the first `"` byte, if any.
pub open spec fn first_quote_index(s: Seq<u8>) -> Option<int>
    decreases s.len(),
{
    if s.len() == 0 {
        None
    } else if s[0] == 34 {
        Some(0int)
    } else {
        match first_quote_index(s.drop_first()) {
            None => None,
            Some(i) => Some(i + 1),
        }
    }
}

/// The index of the first forbidden atom character, if any.
pub open spec fn first_forbidden_index(s: Seq<u8>) -> Option<int>
    decreases s.len(),
{
    if s.len() == 0 {
        None
    } else if is_forbidden_byte(s[0]) {
        Some(0int)
    } else {
        match first_forbidden_index(s.drop_first()) {
            None => None,
            Some(i) => Some(i + 1),
        }
    }
}

/// `first_close_index` finds the least index holding `)`, or none exists.
pub proof fn lemma_first_close_index(s: Seq<u8>)
    ensures
        match first_close_index(s) {
            Some(i) => 0 <= i < s.len() && s[i] == 41 && forall|j: int| 0 <= j < i ==> s[j] != 41,
            None => forall|j: int| 0 <= j < s.len() ==> s[j] != 41,
        },
    decreases s.len(),
{
    if s.len() > 0 && s[0] != 41 {
        lemma_first_close_index(s.drop_first());
        assert forall|j: int| 1 <= j < s.len() implies s[j] == s.drop_first()[j - 1] by {}
    }
}

/// `first_ws_index` finds the least index holding whitespace, or none exists.
pub proof fn lemma_first_ws_index(s: Seq<u8>)
    ensures
        match first_ws_index(s) {
            Some(i) => 0 <= i < s.len() && is_ws(s[i]) && forall|j: int| 0 <= j < i ==> !is_ws(s[j]),
            None => forall|j: int| 0 <= j < s.len() ==> !is_ws(s[j]),
        },
    decreases s.len(),
{
    if s.len() > 0 && !is_ws(s[0]) {
        lemma_first_ws_index(s.drop_first());
        assert forall|j: int| 1 <= j < s.len() implies s[j] == s.drop_first()[j - 1] by {}
    }
}

/// `first_quote_index` finds the least index holding `"`, or none exists.
pub proof fn lemma_first_quote_index(s: Seq<u8>)
    ensures
        match first_quote_index(s) {
            Some(i) => 0 <= i < s.len() && s[i] == 34 && forall|j: int| 0 <= j < i ==> s[j] != 34,
            None => forall|j: int| 0 <= j < s.len() ==> s[j] != 34,
        },
    decreases s.len(),
{
    if s.len() > 0 && s[0] != 34 {
        lemma_first_quote_index(s.drop_first());
        assert forall|j: int| 1 <= j < s.len() implies s[j] == s.drop_first()[j - 1] by {}
    }
}

/// `first_forbidden_index` finds the least index holding a forbidden
/// character, or none exists.
pub proof fn lemma_first_forbidden_index(s: Seq<u8>)
    ensures
        match first_forbidden_index(s) {
            Some(i) => 0 <= i < s.len() && is_forbidden_byte(s[i]) && forall|j: int|
                0 <= j < i ==> !is_forbidden_byte(s[j]),
            None => forall|j: int| 0 <= j < s.len() ==> !is_forbidden_byte(s[j]),
        },
    decreases s.len(),
{
    if s.len() > 0 && !is_forbidden_byte(s[0]) {
        lemma_first_forbidden_index(s.drop_first());
        assert forall|j: int| 1 <= j < s.len() implies s[j] == s.drop_first()[j - 1] by {}
    }
}

// ---------------------------------------------------------------------------
// Numbers: decimal text and its value
// ---------------------------------------------------------------------------

/// Every byte of the sequence is a decimal digit.
pub open spec fn all_digit_bytes(s: Seq<u8>) -> bool {
    forall|i: int| 0 <= i < s.len() ==> is_digit_byte(s[i])
}

/// The value of a sequence of decimal digits, most significant first.
pub open spec fn digits_value(s: Seq<u8>) -> int
    decreases s.len(),
{
    if s.len() == 0 {
        0
    } else {
        digits_value(s.drop_last()) * 10 + (s.last() - 48)
    }
}

/// The atom text has the shape of a base-10 signed integer: an optional
/// leading `-`, then one or more digits and nothing else.
pub open spec fn int_format_ok(s: Seq<u8>) -> bool {
    if s.len() > 0 && s[0] == 45 {
        s.len() >= 2 && all_digit_bytes(s.skip(1))
    } else {
        s.len() >= 1 && all_digit_bytes(s)
    }
}

/// The signed value of integer text (meaningful when `int_format_ok` holds).
pub open spec fn int_text_value(s: Seq<u8>) -> int {
    if s.len() > 0 && s[0] == 45 {
        -digits_value(s.skip(1))
    } else {
        digits_value(s)
    }
}

/// The value fits the machine's signed word.
pub open spec fn fits_isize(v: int) -> bool {
    isize::MIN <= v <= isize::MAX
}

/// The atom text parses as an `isize`: well-shaped and within range.
pub open spec fn parses_as_isize(s: Seq<u8>) -> bool {
    int_format_ok(s) && fits_isize(int_text_value(s))
}

// ---------------------------------------------------------------------------
// Atoms
// ---------------------------------------------------------------------------

/// Where the atom text ends: the earlier of the first whitespace byte and the
/// first `)` byte, except that a `)` immediately followed by whitespace cuts
/// at the `)` itself, so the parenthesis is preserved for the enclosing list.
pub open spec fn cut_index(s: Seq<u8>) -> int {
    match (first_close_index(s), first_ws_index(s)) {
        (Some(p), Some(w)) => if w == p + 1 {
            p
        } else {
            w
        },
        (None, Some(w)) => w,
        (Some(p), None) => p,
        (None, None) => s.len() as int,
    }
}

/// Classify one atom's text (nonempty, already cut out of the buffer):
/// reject any forbidden character, then read it as a number if it starts
/// with a digit or `-`, and as a symbol otherwise.
pub open spec fn spec_atom(s: Seq<u8>) -> Result<AstNodeView, ParseErrorView>
    recommends
        s.len() > 0,
{
    match first_forbidden_index(s) {
        Some(i) => Err(ParseErrorView::ForbiddenCharInSymbol(s[i] as char)),
        None => if is_digit_byte(s[0]) || s[0] == 45 {
            if parses_as_isize(s) {
                Ok(AstNodeView::Num(int_text_value(s)))
            } else {
                Err(ParseErrorView::CannotParseNumber(chars_of_bytes(s)))
            }
        } else {
            Ok(AstNodeView::Sym(s))
        },
    }
}

/// Tokenize a trimmed buffer that starts with an atom: cut the atom text
/// out, classify it, and return the trimmed remainder if any.
pub open spec fn spec_tokenize_atom(t: Seq<u8>) -> Result<AstTokenView, ParseErrorView>
    recommends
        trim(t) == t,
        t.len() > 0,
{
    let cut = cut_index(t);
    match spec_atom(t.take(cut)) {
        Err(e) => Err(e),
        Ok(node) => {
            let rm = trim(t.skip(cut));
            if rm.len() == 0 {
                Ok(AstTokenView::Parsed(node))
            } else {
                Ok(AstTokenView::ParsedRest(node, rm))
            }
        },
    }
}

// ---------------------------------------------------------------------------
// Strings
// ---------------------------------------------------------------------------

/// Tokenize string contents, given the buffer just after the opening quote:
/// scan for the closing quote; the byte after it must be end of buffer,
/// whitespace, or `)`.
pub open spec fn spec_tokenize_string(s: Seq<u8>) -> Result<AstTokenView, ParseErrorView> {
    match first_quote_index(s) {
        None => Err(ParseErrorView::MissingDoubleQuote),
        Some(q) => {
            let node = AstNodeView::Str(s.take(q));
            let rest = s.skip(q + 1);
            if rest.len() == 0 {
                Ok(AstTokenView::Parsed(node))
            } else if !is_ws(rest[0]) && rest[0] != 41 {
                Err(ParseErrorView::StringDidntEnd)
            } else {
                let rm = trim(rest);
                if rm.len() == 0 {
                    Ok(AstTokenView::Parsed(node))
                } else {
                    Ok(AstTokenView::ParsedRest(node, rm))
                }
            }
        },
    }
}

// ---------------------------------------------------------------------------
// The tokenizer itself, at the level of sequences
// ---------------------------------------------------------------------------

/// Tokenize one expression out of a byte buffer: trim, then dispatch on the
/// first byte. An unopened `)` has no home; `"` opens a string; `(` opens a
/// list; anything else starts an atom.
pub open spec fn spec_tokenize(s: Seq<u8>) -> Result<AstTokenView, ParseErrorView>
    decreases s.len(), 1int,
    via spec_tokenize_decreases
{
    let t = trim(s);
    if t.len() == 0 {
        Err(ParseErrorView::CannotParseEmpty)
    } else if t[0] == 41 {
        Err(ParseErrorView::MissingLeftParenthesis)
    } else if t[0] == 34 {
        spec_tokenize_string(t.drop_first())
    } else if t[0] != 40 {
        spec_tokenize_atom(t)
    } else {
        spec_tokenize_list(trim(t.drop_first()), Seq::empty())
    }
}

/// Tokenize the elements of an open list. `rem` is the trimmed buffer after
/// the elements read so far (`acc`); a leading `)` closes the list, an empty
/// buffer means the close parenthesis is missing, and anything else must
/// tokenize to an element followed by a remainder.
///
/// The length test on `rest` guards the recursion; it always holds, because
/// a remainder is strictly shorter than the buffer it came from (see
/// [`lemma_spec_tokenize_rest_shorter`]).
pub open spec fn spec_tokenize_list(rem: Seq<u8>, acc: Seq<AstNodeView>) -> Result<
    AstTokenView,
    ParseErrorView,
>
    decreases rem.len() + 1, 0int,
{
    if rem.len() == 0 {
        Err(ParseErrorView::MissingRightParenthesis)
    } else if rem[0] == 41 {
        let after = rem.drop_first();
        if after.len() == 0 {
            Ok(AstTokenView::Parsed(AstNodeView::List(acc)))
        } else {
            Ok(AstTokenView::ParsedRest(AstNodeView::List(acc), trim(after)))
        }
    } else {
        match spec_tokenize(rem) {
            Err(e) => Err(e),
            Ok(AstTokenView::Parsed(_)) => Err(ParseErrorView::MissingRightParenthesis),
            Ok(AstTokenView::ParsedRest(node, rest)) => if trim(rest).len() < rem.len() {
                spec_tokenize_list(trim(rest), acc.push(node))
            } else {
                Err(ParseErrorView::MissingRightParenthesis)
            },
        }
    }
}

#[via_fn]
proof fn spec_tokenize_decreases(s: Seq<u8>) {
    lemma_trim_shape(s);
    if trim(s).len() > 0 {
        lemma_trim_shape(trim(s).drop_first());
    }
}

/// A remainder handed back by the tokenizer is already trimmed and strictly
/// shorter than the (trimmed) buffer it came from. In particular the length
/// guard inside [`spec_tokenize_list`] always holds.
pub proof fn lemma_spec_tokenize_rest_shorter(s: Seq<u8>)
    ensures
        forall|node: AstNodeView, rest: Seq<u8>|
            spec_tokenize(s) == Ok::<AstTokenView, ParseErrorView>(
                AstTokenView::ParsedRest(node, rest),
            ) ==> rest.len() < trim(s).len() && trim(rest) == rest,
    decreases s.len(), 1int,
{
    let t = trim(s);
    lemma_trim_shape(s);
    if t.len() == 0 || t[0] == 41 {
    } else if t[0] == 34 {
        lemma_spec_tokenize_string_rest_shorter(t.drop_first());
    } else if t[0] != 40 {
        lemma_spec_tokenize_atom_rest_shorter(t);
    } else {
        lemma_trim_shape(t.drop_first());
        lemma_spec_tokenize_list_rest_shorter(trim(t.drop_first()), Seq::empty(), t.len() as int);
    }
}

proof fn lemma_spec_tokenize_string_rest_shorter(s: Seq<u8>)
    ensures
        forall|node: AstNodeView, rest: Seq<u8>|
            spec_tokenize_string(s) == Ok::<AstTokenView, ParseErrorView>(
                AstTokenView::ParsedRest(node, rest),
            ) ==> rest.len() < s.len() && trim(rest) == rest,
{
    lemma_first_quote_index(s);
    match first_quote_index(s) {
        None => {}
        Some(q) => {
            lemma_trim_shape(s.skip(q + 1));
            lemma_trim_idempotent(s.skip(q + 1));
        }
    }
}

proof fn lemma_spec_tokenize_atom_rest_shorter(t: Seq<u8>)
    requires
        trim(t) == t,
        t.len() > 0,
        !is_ws(t[0]),
        t[0] != 41,
    ensures
        forall|node: AstNodeView, rest: Seq<u8>|
            spec_tokenize_atom(t) == Ok::<AstTokenView, ParseErrorView>(
                AstTokenView::ParsedRest(node, rest),
            ) ==> rest.len() < t.len() && trim(rest) == rest,
{
    lemma_cut_index_bounds(t);
    let cut = cut_index(t);
    lemma_trim_shape(t.skip(cut));
    lemma_trim_idempotent(t.skip(cut));
}

proof fn lemma_spec_tokenize_list_rest_shorter(rem: Seq<u8>, acc: Seq<AstNodeView>, bound: int)
    requires
        rem.len() < bound,
    ensures
        forall|node: AstNodeView, rest: Seq<u8>|
            spec_tokenize_list(rem, acc) == Ok::<AstTokenView, ParseErrorView>(
                AstTokenView::ParsedRest(node, rest),
            ) ==> rest.len() < bound && trim(rest) == rest,
    decreases rem.len() + 1, 0int,
{
    if rem.len() == 0 {
    } else if rem[0] == 41 {
        let after = rem.drop_first();
        lemma_trim_shape(after);
        lemma_trim_idempotent(after);
    } else {
        lemma_spec_tokenize_rest_shorter(rem);
        lemma_trim_shape(rem);
        match spec_tokenize(rem) {
            Ok(AstTokenView::ParsedRest(node, rest)) => {
                lemma_trim_shape(rest);
                if trim(rest).len() < rem.len() {
                    lemma_spec_tokenize_list_rest_shorter(trim(rest), acc.push(node), bound);
                }
            }
            _ => {}
        }
    }
}

/// The cut index of a trimmed buffer that starts an atom keeps at least
/// the first byte and never reaches past the end.
pub proof fn lemma_cut_index_bounds(t: Seq<u8>)
    requires
        t.len() > 0,
        !is_ws(t[0]),
        t[0] != 41,
    ensures
        1 <= cut_index(t) <= t.len(),
{
    lemma_first_close_index(t);
    lemma_first_ws_index(t);
}

// ---------------------------------------------------------------------------
// Executable helpers: byte classes, trimming, searching
// ---------------------------------------------------------------------------

/// Does this byte count as ASCII whitespace for the grammar?
fn is_ascii_whitespace_byte(c: u8) -> (r: bool)
    ensures
        r == is_ws(c),
{
    c == 32 || c == 9 || c == 10 || c == 12 || c == 13
}

/// May this byte not occur inside an atom?
fn is_atom_forbidden_char(c: u8) -> (r: bool)
    ensures
        r == is_forbidden_byte(c),
{
    c == 40 || c == 41 || c == 34 || c == 39
}

/// `trim_start` removes exactly the bytes before the first non-whitespace.
proof fn lemma_trim_start_from_index(s: Seq<u8>, lo: int)
    requires
        0 <= lo <= s.len(),
        forall|j: int| 0 <= j < lo ==> is_ws(s[j]),
        lo == s.len() || !is_ws(s[lo]),
    ensures
        trim_start(s) == s.skip(lo),
    decreases lo,
{
    if lo == 0 {
        assert(s.skip(0) == s);
    } else {
        lemma_trim_start_from_index(s.drop_first(), lo - 1);
        assert(s.drop_first().skip(lo - 1) == s.skip(lo));
    }
}

/// `trim_end` removes exactly the bytes from the last non-whitespace on.
proof fn lemma_trim_end_from_index(s: Seq<u8>, hi: int)
    requires
        0 <= hi <= s.len(),
        forall|j: int| hi <= j < s.len() ==> is_ws(s[j]),
        hi == 0 || !is_ws(s[hi - 1]),
    ensures
        trim_end(s) == s.take(hi),
    decreases s.len() - hi,
{
    if hi == s.len() {
        assert(s.take(hi) == s);
    } else {
        lemma_trim_end_from_index(s.drop_last(), hi);
        assert(s.drop_last().take(hi) == s.take(hi));
    }
}

/// Remove ASCII whitespace from both ends of a byte slice.
fn trim_ascii(buffer: &[u8]) -> (r: &[u8])
    ensures
        r@ == trim(buffer@),
{
    let len: usize = buffer.len();
    let mut lo: usize = 0;
    while lo < len && is_ascii_whitespace_byte(buffer[lo])
        invariant
            0 <= lo <= len,
            len == buffer@.len(),
            forall|j: int| 0 <= j < lo ==> is_ws(buffer@[j]),
        decreases len - lo,
    {
        lo = lo + 1;
    }
    let mut hi: usize = len;
    while hi > lo && is_ascii_whitespace_byte(buffer[hi - 1])
        invariant
            lo <= hi <= len,
            len == buffer@.len(),
            forall|j: int| hi <= j < len ==> is_ws(buffer@[j]),
        decreases hi,
    {
        hi = hi - 1;
    }
    proof {
        lemma_trim_start_from_index(buffer@, lo as int);
        if hi == lo {
            lemma_trim_end_from_index(buffer@.skip(lo as int), 0);
        } else {
            lemma_trim_end_from_index(buffer@.skip(lo as int), hi - lo);
        }
        assert(buffer@.skip(lo as int).take(hi - lo) == buffer@.subrange(lo as int, hi as int));
    }
    slice_subrange(buffer, lo, hi)
}

/// The index of the first `)` in the slice, if any.
fn find_first_close(s: &[u8]) -> (r: Option<usize>)
    ensures
        match r {
            Some(i) => first_close_index(s@) == Some(i as int),
            None => first_close_index(s@) is None,
        },
{
    let mut i: usize = 0;
    while i < s.len()
        invariant
            0 <= i <= s@.len(),
            forall|j: int| 0 <= j < i ==> s@[j] != 41,
        decreases s@.len() - i,
    {
        if s[i] == 41 {
            proof {
                lemma_first_close_index(s@);
            }
            return Some(i);
        }
        i = i + 1;
    }
    proof {
        lemma_first_close_index(s@);
    }
    None
}

/// The index of the first ASCII whitespace byte in the slice, if any.
fn find_first_ws(s: &[u8]) -> (r: Option<usize>)
    ensures
        match r {
            Some(i) => first_ws_index(s@) == Some(i as int),
            None => first_ws_index(s@) is None,
        },
{
    let mut i: usize = 0;
    while i < s.len()
        invariant
            0 <= i <= s@.len(),
            forall|j: int| 0 <= j < i ==> !is_ws(s@[j]),
        decreases s@.len() - i,
    {
        if is_ascii_whitespace_byte(s[i]) {
            proof {
                lemma_first_ws_index(s@);
            }
            return Some(i);
        }
        i = i + 1;
    }
    proof {
        lemma_first_ws_index(s@);
    }
    None
}

/// The index of the first `"` in the slice, if any.
fn find_first_quote(s: &[u8]) -> (r: Option<usize>)
    ensures
        match r {
            Some(i) => first_quote_index(s@) == Some(i as int),
            None => first_quote_index(s@) is None,
        },
{
    let mut i: usize = 0;
    while i < s.len()
        invariant
            0 <= i <= s@.len(),
            forall|j: int| 0 <= j < i ==> s@[j] != 34,
        decreases s@.len() - i,
    {
        if s[i] == 34 {
            proof {
                lemma_first_quote_index(s@);
            }
            return Some(i);
        }
        i = i + 1;
    }
    proof {
        lemma_first_quote_index(s@);
    }
    None
}

/// The index of the first forbidden atom character in the slice, if any.
fn find_first_forbidden(s: &[u8]) -> (r: Option<usize>)
    ensures
        match r {
            Some(i) => first_forbidden_index(s@) == Some(i as int),
            None => first_forbidden_index(s@) is None,
        },
{
    let mut i: usize = 0;
    while i < s.len()
        invariant
            0 <= i <= s@.len(),
            forall|j: int| 0 <= j < i ==> !is_forbidden_byte(s@[j]),
        decreases s@.len() - i,
    {
        if is_atom_forbidden_char(s[i]) {
            proof {
                lemma_first_forbidden_index(s@);
            }
            return Some(i);
        }
        i = i + 1;
    }
    proof {
        lemma_first_forbidden_index(s@);
    }
    None
}

// ---------------------------------------------------------------------------
// Result views and small facts
// ---------------------------------------------------------------------------

/// The mathematical value of a token-or-error result.
pub open spec fn token_result_view(r: Result<AstToken, ParseError>) -> Result<
    AstTokenView,
    ParseErrorView,
> {
    match r {
        Ok(t) => Ok(t@),
        Err(e) => Err(e@),
    }
}

/// The mathematical value of a node-or-error result.
pub open spec fn node_result_view(r: Result<AstNode, ParseError>) -> Result<
    AstNodeView,
    ParseErrorView,
> {
    match r {
        Ok(n) => Ok(n@),
        Err(e) => Err(e@),
    }
}

/// Trimming an ASCII buffer leaves ASCII bytes.
pub proof fn lemma_is_ascii_trim(s: Seq<u8>)
    requires
        is_ascii_bytes(s),
    ensures
        is_ascii_bytes(trim(s)),
{
    lemma_trim_shape(s);
    let (lo, hi) = choose|lo: int, hi: int|
        0 <= lo <= hi <= s.len() && trim(s) == s.subrange(lo, hi);
    assert forall|i: int| 0 <= i < trim(s).len() implies trim(s)[i] < 128 by {
        assert(trim(s)[i] == s[lo + i]);
    }
}

/// A value of a sequence of decimal digits is never negative.
pub proof fn lemma_digits_value_nonneg(s: Seq<u8>)
    requires
        all_digit_bytes(s),
    ensures
        digits_value(s) >= 0,
    decreases s.len(),
{
    if s.len() > 0 {
        lemma_digits_value_nonneg(s.drop_last());
    }
}

/// Reading one more digit multiplies the value by ten and adds the digit.
pub proof fn lemma_digits_value_extend(s: Seq<u8>, a: int, i: int)
    requires
        0 <= a <= i < s.len(),
    ensures
        digits_value(s.subrange(a, i + 1)) == digits_value(s.subrange(a, i)) * 10 + (s[i] - 48),
{
    assert(s.subrange(a, i + 1).drop_last() == s.subrange(a, i));
    assert(s.subrange(a, i + 1).last() == s[i]);
}

/// A prefix of a digit string is worth no more than the whole string.
pub proof fn lemma_digits_value_prefix_le(s: Seq<u8>, k: int)
    requires
        all_digit_bytes(s),
        0 <= k <= s.len(),
    ensures
        digits_value(s.take(k)) <= digits_value(s),
    decreases s.len() - k,
{
    if k < s.len() {
        lemma_digits_value_prefix_le(s, k + 1);
        lemma_digits_value_nonneg(s.take(k));
        assert(s.take(k + 1).drop_last() == s.take(k));
        assert(digits_value(s.take(k + 1)) == digits_value(s.take(k)) * 10 + (s[k] - 48));
        assert(digits_value(s.take(k)) * 10 >= digits_value(s.take(k)));
    } else {
        assert(s.take(k) == s);
    }
}

// ---------------------------------------------------------------------------
// Reading an atom's text as a signed integer
// ---------------------------------------------------------------------------

/// Parse the full atom text as a base-10 `isize`, exactly when the text is
/// an optional `-` followed by digits and the value fits the machine word.
fn parse_isize_bytes(s: &[u8]) -> (r: Option<isize>)
    ensures
        match r {
            Some(v) => parses_as_isize(s@) && v as int == int_text_value(s@),
            None => !parses_as_isize(s@),
        },
{
    let len: usize = s.len();
    if len == 0 {
        return None;
    }
    let neg: bool = s[0] == 45;
    let start: usize = if neg {
        1
    } else {
        0
    };
    if start == len {
        return None;
    }
    let bound: i128 = isize::MAX as i128 + 1;
    let mut acc: i128 = 0;
    let mut i: usize = start;
    while i < len
        invariant
            start <= i <= len,
            len == s@.len(),
            start < len,
            neg == (s@[0] == 45),
            start == if neg { 1int } else { 0int },
            all_digit_bytes(s@.subrange(start as int, i as int)),
            acc == digits_value(s@.subrange(start as int, i as int)),
            0 <= acc <= bound,
            bound == isize::MAX + 1,
        decreases len - i,
    {
        let c: u8 = s[i];
        if c < 48 || c > 57 {
            proof {
                assert(!is_digit_byte(s@[i as int]));
                if parses_as_isize(s@) {
                    if neg {
                        assert(is_digit_byte(s@.skip(1)[i - 1]));
                    } else {
                        assert(s@.skip(0) =~= s@);
                        assert(is_digit_byte(s@[i as int]));
                    }
                }
            }
            return None;
        }
        proof {
            lemma_digits_value_extend(s@, start as int, i as int);
            assert(s@.subrange(start as int, i as int).push(s@[i as int])
                =~= s@.subrange(start as int, i + 1));
        }
        acc = acc * 10 + (c - 48) as i128;
        i = i + 1;
        if acc > bound {
            proof {
                let tail = s@.skip(start as int);
                assert(tail.take(i - start) =~= s@.subrange(start as int, i as int));
                if parses_as_isize(s@) {
                    if !neg {
                        assert(s@.skip(0) =~= s@);
                    }
                    assert(all_digit_bytes(tail));
                    lemma_digits_value_prefix_le(tail, i - start);
                    assert(digits_value(tail) > isize::MAX + 1);
                    assert(isize::MIN == -isize::MAX - 1);
                    assert(false);
                }
            }
            return None;
        }
    }
    proof {
        let tail = s@.skip(start as int);
        assert(s@.subrange(start as int, len as int) =~= tail);
        if !neg {
            assert(s@.skip(0) =~= s@);
        }
        assert(int_format_ok(s@));
        assert(isize::MIN == -isize::MAX - 1);
    }
    if neg {
        Some((-acc) as isize)
    } else {
        if acc > isize::MAX as i128 {
            None
        } else {
            Some(acc as isize)
        }
    }
}

// ---------------------------------------------------------------------------
// Classifying an atom
// ---------------------------------------------------------------------------

/// Relies on core::str::from_utf8 (and str::to_owned): ASCII bytes are valid
/// UTF-8 and decode to exactly those characters, one per byte.
#[verifier::external_body]
pub(crate) fn ascii_to_string(bytes: &[u8]) -> (r: String)
    requires
        is_ascii_bytes(bytes@),
    ensures
        r@ == chars_of_bytes(bytes@),
{
    core::str::from_utf8(bytes).unwrap().to_owned()
}

impl AstNode {
    /// Classify one atom's text: reject forbidden characters, then read a
    /// number if the first byte is a digit or `-`, and a symbol otherwise.
    fn try_parse_atom(buffer: &[u8]) -> (r: Result<AstNode, ParseError>)
        requires
            buffer@.len() > 0,
            is_ascii_bytes(buffer@),
        ensures
            node_result_view(r) == spec_atom(buffer@),
    {
        match find_first_forbidden(buffer) {
            Some(i) => {
                proof {
                    lemma_first_forbidden_index(buffer@);
                }
                Err(ParseError::ForbiddenCharInSymbol(buffer[i] as char))
            },
            None => {
                let first: u8 = buffer[0];
                if (48 <= first && first <= 57) || first == 45 {
                    match parse_isize_bytes(buffer) {
                        Some(v) => Ok(AstNode::Num(v)),
                        None => Err(ParseError::CannotParseNumber(ascii_to_string(buffer))),
                    }
                } else {
                    Ok(AstNode::Sym(slice_to_vec(buffer)))
                }
            },
        }
    }

    /// Build the node for an atom whose text is known to classify cleanly.
    pub fn from_symbol(buffer: &[u8]) -> (r: AstNode)
        requires
            buffer@.len() > 0,
            is_ascii_bytes(buffer@),
            spec_atom(buffer@) is Ok,
        ensures
            Ok::<AstNodeView, ParseErrorView>(r@) == spec_atom(buffer@),
    {
        match AstNode::try_parse_atom(buffer) {
            Ok(node) => node,
            Err(_) => vstd::pervasive::unreached(),
        }
    }
}

// ---------------------------------------------------------------------------
// Tokenizing atoms and strings
// ---------------------------------------------------------------------------

/// Where the atom at the head of a trimmed buffer ends.
fn get_cutting_index_for_symbol(trimmed_symbol_buffer: &[u8]) -> (r: usize)
    ensures
        r as int == cut_index(trimmed_symbol_buffer@),
        r <= trimmed_symbol_buffer@.len(),
{
    proof {
        lemma_first_close_index(trimmed_symbol_buffer@);
        lemma_first_ws_index(trimmed_symbol_buffer@);
    }
    let first_closing_paren_idx = find_first_close(trimmed_symbol_buffer);
    let first_whitespace_idx = find_first_ws(trimmed_symbol_buffer);
    match (first_closing_paren_idx, first_whitespace_idx) {
        (Some(pindx), Some(windx)) => {
            if windx > pindx && windx - pindx == 1 {
                pindx
            } else {
                windx
            }
        },
        (None, Some(windx)) => windx,
        (Some(pindx), None) => pindx,
        (None, None) => trimmed_symbol_buffer.len(),
    }
}

/// Tokenize a buffer that starts with an atom: cut the atom text out,
/// classify it, and return the trimmed remainder if any.
fn tokenize_atom(buffer: &[u8]) -> (r: Result<AstToken, ParseError>)
    requires
        is_ascii_bytes(buffer@),
        trim(buffer@).len() > 0,
        trim(buffer@)[0] != 41,
    ensures
        token_result_view(r) == spec_tokenize_atom(trim(buffer@)),
        r matches Ok(AstToken::ParsedRest((_, rest))) ==> is_ascii_bytes(rest@),
{
    let trimmed: &[u8] = trim_ascii(buffer);
    proof {
        lemma_is_ascii_trim(buffer@);
        lemma_trim_shape(buffer@);
        lemma_cut_index_bounds(trimmed@);
    }
    let cutting_index: usize = get_cutting_index_for_symbol(trimmed);
    let to_parse: &[u8] = slice_subrange(trimmed, 0, cutting_index);
    let rest: &[u8] = slice_subrange(trimmed, cutting_index, trimmed.len());
    proof {
        assert(to_parse@ =~= trimmed@.take(cutting_index as int));
        assert(rest@ =~= trimmed@.skip(cutting_index as int));
        assert(is_ascii_bytes(to_parse@));
        assert(is_ascii_bytes(rest@));
        lemma_is_ascii_trim(rest@);
    }
    let trimmed_rest: &[u8] = trim_ascii(rest);
    match AstNode::try_parse_atom(to_parse) {
        Err(e) => Err(e),
        Ok(node) => {
            if trimmed_rest.len() == 0 {
                Ok(AstToken::Parsed(node))
            } else {
                Ok(AstToken::ParsedRest((node, slice_to_vec(trimmed_rest))))
            }
        },
    }
}

/// Tokenize string contents, given the buffer just after the opening quote.
fn tokenize_string(buffer: &[u8]) -> (r: Result<AstToken, ParseError>)
    requires
        is_ascii_bytes(buffer@),
    ensures
        token_result_view(r) == spec_tokenize_string(buffer@),
        r matches Ok(AstToken::ParsedRest((_, rest))) ==> is_ascii_bytes(rest@),
{
    match find_first_quote(buffer) {
        None => Err(ParseError::MissingDoubleQuote),
        Some(q) => {
            proof {
                lemma_first_quote_index(buffer@);
            }
            let buffer_len: usize = buffer.len();
            let full_string: &[u8] = slice_subrange(buffer, 0, q);
            let rest: &[u8] = slice_subrange(buffer, q + 1, buffer_len);
            proof {
                assert(full_string@ =~= buffer@.take(q as int));
                assert(rest@ =~= buffer@.skip(q + 1));
                assert(is_ascii_bytes(rest@));
                lemma_is_ascii_trim(rest@);
            }
            let node = AstNode::Str(slice_to_vec(full_string));
            if rest.len() == 0 {
                return Ok(AstToken::Parsed(node));
            }
            let c0: u8 = rest[0];
            if !is_ascii_whitespace_byte(c0) && c0 != 41 {
                return Err(ParseError::StringDidntEnd);
            }
            let trimmed_rest: &[u8] = trim_ascii(rest);
            if trimmed_rest.len() == 0 {
                Ok(AstToken::Parsed(node))
            } else {
                Ok(AstToken::ParsedRest((node, slice_to_vec(trimmed_rest))))
            }
        },
    }
}

// ---------------------------------------------------------------------------
// The tokenizer entry point
// ---------------------------------------------------------------------------

/// Viewing a sequence of nodes commutes with appending one node.
pub proof fn lemma_node_views_push(nodes: Seq<AstNode>, node: AstNode)
    ensures
        node_views(nodes.push(node)) == node_views(nodes).push(node@),
{
    assert(nodes.push(node).subrange(0, nodes.len() as int) =~= nodes);
    assert(nodes.push(node).last() == node);
}

/// Viewing a sequence of nodes keeps its length and views each element.
pub proof fn lemma_node_views_index(nodes: Seq<AstNode>)
    ensures
        node_views(nodes).len() == nodes.len(),
        forall|i: int| 0 <= i < nodes.len() ==> node_views(nodes)[i] == nodes[i]@,
    decreases nodes.len(),
{
    if nodes.len() > 0 {
        let front = nodes.subrange(0, nodes.len() - 1);
        lemma_node_views_index(front);
        assert(node_views(nodes) == node_views(front).push(nodes.last()@));
        assert(node_views(nodes).len() == nodes.len());
        assert forall|i: int| 0 <= i < nodes.len() implies node_views(nodes)[i] == nodes[i]@ by {
            if i < nodes.len() - 1 {
                assert(front[i] == nodes[i]);
                assert(node_views(nodes)[i] == node_views(front)[i]);
            } else {
                assert(node_views(nodes)[i] == nodes.last()@);
            }
        }
    }
}

/// Tokenize one expression out of a byte buffer.
///
/// The buffer is trimmed and dispatched on its first byte: an unopened `)`
/// fails, `"` opens a string, `(` opens a list whose elements are tokenized
/// in turn until the matching `)`, and anything else is an atom. The result
/// is exactly what the spec-level tokenizer says, including the trimmed
/// unconsumed remainder when the buffer held more than one expression.
pub fn tokenize(buffer: &[u8]) -> (r: Result<AstToken, ParseError>)
    requires
        is_ascii_bytes(buffer@),
    ensures
        token_result_view(r) == spec_tokenize(buffer@),
        r matches Ok(AstToken::ParsedRest((_, rest))) ==> is_ascii_bytes(rest@),
    decreases buffer@.len(),
{
    let trimmed: &[u8] = trim_ascii(buffer);
    proof {
        lemma_is_ascii_trim(buffer@);
        lemma_trim_shape(buffer@);
        lemma_trim_idempotent(buffer@);
    }
    if trimmed.len() == 0 {
        return Err(ParseError::CannotParseEmpty);
    }
    let first_char: u8 = trimmed[0];
    if first_char == 41 {
        return Err(ParseError::MissingLeftParenthesis);
    }
    if first_char == 34 {
        let rest: &[u8] = slice_subrange(trimmed, 1, trimmed.len());
        proof {
            assert(rest@ =~= trim(buffer@).drop_first());
            assert(is_ascii_bytes(rest@));
        }
        return tokenize_string(rest);
    }
    if first_char != 40 {
        return tokenize_atom(buffer);
    }
    let after_paren: &[u8] = slice_subrange(trimmed, 1, trimmed.len());
    proof {
        assert(after_paren@ =~= trim(buffer@).drop_first());
        assert(is_ascii_bytes(after_paren@));
        lemma_is_ascii_trim(after_paren@);
        lemma_trim_shape(after_paren@);
        lemma_trim_idempotent(after_paren@);
    }
    let mut trimmed_rest: Vec<u8> = slice_to_vec(trim_ascii(after_paren));
    let mut nodes: Vec<AstNode> = Vec::new();
    loop
        invariant
            is_ascii_bytes(trimmed_rest@),
            trim(trimmed_rest@) == trimmed_rest@,
            trimmed_rest@.len() < buffer@.len(),
            spec_tokenize(buffer@) == spec_tokenize_list(trimmed_rest@, node_views(nodes@)),
        decreases trimmed_rest@.len(),
    {
        if trimmed_rest.len() == 0 {
            return Err(ParseError::MissingRightParenthesis);
        }
        if trimmed_rest[0] == 41 {
            if trimmed_rest.len() == 1 {
                proof {
                    assert(trimmed_rest@.drop_first().len() == 0);
                }
                return Ok(AstToken::Parsed(AstNode::List(nodes)));
            }
            let after: &[u8] = slice_subrange(trimmed_rest.as_slice(), 1, trimmed_rest.len());
            proof {
                assert(after@ =~= trimmed_rest@.drop_first());
                assert(is_ascii_bytes(after@));
                lemma_is_ascii_trim(after@);
            }
            let out: Vec<u8> = slice_to_vec(trim_ascii(after));
            return Ok(AstToken::ParsedRest((AstNode::List(nodes), out)));
        }
        match tokenize(trimmed_rest.as_slice()) {
            Err(e) => {
                return Err(e);
            },
            Ok(AstToken::Parsed(_)) => {
                return Err(ParseError::MissingRightParenthesis);
            },
            Ok(AstToken::ParsedRest((node, rest))) => {
                proof {
                    lemma_spec_tokenize_rest_shorter(trimmed_rest@);
                    lemma_node_views_push(nodes@, node);
                }
                nodes.push(node);
                trimmed_rest = rest;
            },
        }
    }
}

/// One whole unit of source text as a node: the buffer must tokenize with
/// nothing left over, else the unit is not a single S-expression.
pub open spec fn spec_parse(s: Seq<u8>) -> Result<AstNodeView, ParseErrorView> {
    match spec_tokenize(s) {
        Ok(AstTokenView::Parsed(node)) => Ok(node),
        Ok(AstTokenView::ParsedRest(_, _)) => Err(ParseErrorView::NotAnSExpression),
        Err(e) => Err(e),
    }
}

/// Parse one unit of source text: tokenize it and insist that the whole
/// buffer was consumed by a single expression.
pub fn parse(line: &[u8]) -> (r: Result<AstNode, ParseError>)
    requires
        is_ascii_bytes(line@),
    ensures
        node_result_view(r) == spec_parse(line@),
{
    match tokenize(line) {
        Ok(AstToken::Parsed(node)) => Ok(node),
        Ok(AstToken::ParsedRest(_)) => Err(ParseError::NotAnSExpression),
        Err(e) => Err(e),
    }
}

} // verus!
