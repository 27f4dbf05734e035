//! The tree-walking evaluator: runtime values, the evaluation-time error
//! taxonomy, the registry of named primitives, and `eval` itself, all
//! specified against a spec-level evaluator over views.

use vstd::prelude::*;
use vstd::slice::slice_to_vec;

use crate::tokenize::chars_of_bytes;
use crate::tokenize::fits_isize;
use crate::tokenize::is_ascii_bytes;
use crate::tokenize::AstNode;
use crate::tokenize::AstNodeView;
use crate::tokenize::ascii_to_string;
use crate::tokenize::node_views;
use crate::tokenize::lemma_node_views_index;

verus! {

/// The runtime result of evaluation: a number or a byte string.
#[derive(Debug, Eq, PartialEq)]
pub enum Value {
    Num(isize),
    Str(Vec<u8>),
}

/// The mathematical value of a [`Value`].
pub enum ValueView {
    Num(int),
    Str(Seq<u8>),
}

impl View for Value {
    type V = ValueView;

    open spec fn view(&self) -> ValueView {
        match self {
            Value::Num(n) => ValueView::Num(*n as int),
            Value::Str(bytes) => ValueView::Str(bytes@),
        }
    }
}

impl Value {
    /// The number a value holds, if it holds one.
    pub fn num(&self) -> (r: Option<isize>)
        ensures
            match r {
                Some(v) => self@ == ValueView::Num(v as int),
                None => !(self@ is Num),
            },
    {
        match self {
            Value::Num(n) => Some(*n),
            Value::Str(_) => None,
        }
    }
}

/// The views of a sequence of runtime values, in order.
pub open spec fn values_view(vals: Seq<Value>) -> Seq<ValueView> {
    vals.map(|_i: int, v: Value| v@)
}

/// An error produced while evaluating a syntax tree.
#[derive(Debug)]
pub enum EvalError {
    /// The operator name is not registered in the namespace.
    UnableToEvalFunction(String),
    /// Reserved in the taxonomy; the evaluator reports an empty list as
    /// `InvalidArguments`.
    CannotEvaluateEmptyList,
    /// Reserved in the taxonomy; the evaluator reports a non-symbol
    /// operator as `InvalidArguments`.
    CannotEvaluateNonSymbol,
    /// The evaluated form or the arguments of a primitive were malformed.
    InvalidArguments(String),
}

/// The mathematical value of an [`EvalError`].
pub enum EvalErrorView {
    UnableToEvalFunction(Seq<char>),
    CannotEvaluateEmptyList,
    CannotEvaluateNonSymbol,
    InvalidArguments(Seq<char>),
}

impl View for EvalError {
    type V = EvalErrorView;

    open spec fn view(&self) -> EvalErrorView {
        match self {
            EvalError::UnableToEvalFunction(name) => EvalErrorView::UnableToEvalFunction(name@),
            EvalError::CannotEvaluateEmptyList => EvalErrorView::CannotEvaluateEmptyList,
            EvalError::CannotEvaluateNonSymbol => EvalErrorView::CannotEvaluateNonSymbol,
            EvalError::InvalidArguments(reason) => EvalErrorView::InvalidArguments(reason@),
        }
    }
}

/// The mathematical value of a value-or-error result.
pub open spec fn value_result_view(r: Result<Value, EvalError>) -> Result<
    ValueView,
    EvalErrorView,
> {
    match r {
        Ok(v) => Ok(v@),
        Err(e) => Err(e@),
    }
}

// ---------------------------------------------------------------------------
// The built-in primitives
// ---------------------------------------------------------------------------

/// A native callable: the closed set of primitives a namespace can hold.
#[derive(Debug, Clone, Copy, PartialEq, Eq)]
pub enum LispFn {
    /// The arithmetic sum primitive, registered as `+`.
    Plus,
}

/// Every element is a number.
pub open spec fn all_nums(vals: Seq<ValueView>) -> bool {
    forall|i: int| 0 <= i < vals.len() ==> vals[i] is Num
}

/// The number a value holds, counting anything else as zero.
pub open spec fn num_or_zero(v: ValueView) -> int {
    match v {
        ValueView::Num(n) => n,
        ValueView::Str(_) => 0,
    }
}

/// The sum of the numbers in a sequence of values.
pub open spec fn sum_nums(vals: Seq<ValueView>) -> int
    decreases vals.len(),
{
    if vals.len() == 0 {
        0
    } else {
        sum_nums(vals.drop_last()) + num_or_zero(vals.last())
    }
}

/// What `+` returns: the sum of its arguments, which must all be numbers
/// (the empty sum is zero) and whose sum must fit the machine word.
pub open spec fn spec_plus(args: Seq<ValueView>) -> Result<ValueView, EvalErrorView> {
    if !all_nums(args) {
        Err(EvalErrorView::InvalidArguments("Non-number in sum operation"@))
    } else if !fits_isize(sum_nums(args)) {
        Err(EvalErrorView::InvalidArguments("Sum does not fit in a number"@))
    } else {
        Ok(ValueView::Num(sum_nums(args)))
    }
}

/// What a primitive returns on a sequence of evaluated arguments.
pub open spec fn spec_call(f: LispFn, args: Seq<ValueView>) -> Result<ValueView, EvalErrorView> {
    match f {
        LispFn::Plus => spec_plus(args),
    }
}

impl LispFn {
    /// Invoke the primitive on evaluated arguments.
    pub fn call(&self, arguments: &[Value]) -> (r: Result<Value, EvalError>)
        ensures
            value_result_view(r) == spec_call(*self, values_view(arguments@)),
    {
        match self {
            LispFn::Plus => lisp_plus(arguments),
        }
    }
}

/// Every value a machine word can hold lies within one word-width step of
/// zero, so a sum of `n` such values lies within `n` such steps.
proof fn lemma_sum_nums_bound(vals: Seq<ValueView>)
    requires
        forall|i: int| 0 <= i < vals.len() ==> fits_isize(num_or_zero(vals[i])),
    ensures
        -(vals.len() as int) * 0x8000_0000_0000_0000 <= sum_nums(vals) <= (vals.len() as int)
            * 0x8000_0000_0000_0000,
    decreases vals.len(),
{
    if vals.len() == 0 {
    } else {
        let front = vals.drop_last();
        assert(forall|i: int| 0 <= i < front.len() ==> fits_isize(num_or_zero(front[i])));
        lemma_sum_nums_bound(front);
        let n = vals.len() as int;
        assert(isize::MIN >= -0x8000_0000_0000_0000 && isize::MAX <= 0x7FFF_FFFF_FFFF_FFFF);
        assert((n - 1) * 0x8000_0000_0000_0000 + 0x8000_0000_0000_0000 == n
            * 0x8000_0000_0000_0000) by (nonlinear_arith);
    }
}

/// The sum primitive: every argument must be a number, the empty sum is
/// zero, and a sum outside the machine word is a typed error.
pub fn lisp_plus(arguments: &[Value]) -> (r: Result<Value, EvalError>)
    ensures
        value_result_view(r) == spec_plus(values_view(arguments@)),
{
    let ghost all_views = values_view(arguments@);
    let mut total: i128 = 0;
    let mut i: usize = 0;
    while i < arguments.len()
        invariant
            0 <= i <= arguments@.len(),
            all_views == values_view(arguments@),
            all_views.len() == arguments@.len(),
            forall|j: int| 0 <= j < i ==> all_views[j] is Num,
            total == sum_nums(all_views.take(i as int)),
            -(i as int) * 0x8000_0000_0000_0000 <= total <= (i as int) * 0x8000_0000_0000_0000,
        decreases arguments@.len() - i,
    {
        match arguments[i].num() {
            None => {
                proof {
                    assert(!(all_views[i as int] is Num));
                }
                return Err(EvalError::InvalidArguments(String::from_str(
                    "Non-number in sum operation",
                )));
            },
            Some(v) => {
                proof {
                    let prefix = all_views.take(i as int);
                    assert(all_views.take(i + 1).drop_last() =~= prefix);
                    assert(all_views.take(i + 1).last() == all_views[i as int]);
                    assert(forall|j: int|
                        0 <= j < prefix.len() ==> fits_isize(num_or_zero(prefix[j])));
                    lemma_sum_nums_bound(prefix);
                    assert(i as int * 0x8000_0000_0000_0000 + 0x8000_0000_0000_0000 == (i + 1)
                        * 0x8000_0000_0000_0000) by (nonlinear_arith);
                    assert((i as int) <= 0xFFFF_FFFF_FFFF_FFFF);
                    assert((i as int) * 0x8000_0000_0000_0000 <= 0xFFFF_FFFF_FFFF_FFFF
                        * 0x8000_0000_0000_0000) by (nonlinear_arith);
                    assert(-((i as int) * 0x8000_0000_0000_0000) >= -(0xFFFF_FFFF_FFFF_FFFF
                        * 0x8000_0000_0000_0000)) by (nonlinear_arith);
                }
                total = total + v as i128;
                i = i + 1;
            },
        }
    }
    proof {
        assert(all_views.take(i as int) =~= all_views);
    }
    if total < isize::MIN as i128 || total > isize::MAX as i128 {
        Err(EvalError::InvalidArguments(String::from_str("Sum does not fit in a number")))
    } else {
        Ok(Value::Num(total as isize))
    }
}

// ---------------------------------------------------------------------------
// The global namespace: a registry of named primitives
// ---------------------------------------------------------------------------

/// Are two byte slices equal, byte for byte?
fn bytes_equal(a: &[u8], b: &[u8]) -> (r: bool)
    ensures
        r == (a@ == b@),
{
    if a.len() != b.len() {
        return false;
    }
    let mut i: usize = 0;
    while i < a.len()
        invariant
            0 <= i <= a@.len(),
            a@.len() == b@.len(),
            forall|j: int| 0 <= j < i ==> a@[j] == b@[j],
        decreases a@.len() - i,
    {
        if a[i] != b[i] {
            return false;
        }
        i = i + 1;
    }
    proof {
        assert(a@ =~= b@);
    }
    true
}

/// The mapping a sequence of registry entries stands for, later entries
/// overwriting earlier ones.
pub open spec fn map_of(entries: Seq<(Vec<u8>, LispFn)>) -> Map<Seq<u8>, LispFn>
    decreases entries.len(),
{
    if entries.len() == 0 {
        Map::empty()
    } else {
        map_of(entries.drop_last()).insert(entries.last().0@, entries.last().1)
    }
}

/// No two entries share a key.
pub open spec fn unique_keys(entries: Seq<(Vec<u8>, LispFn)>) -> bool {
    forall|i: int, j: int| 0 <= i < j < entries.len() ==> entries[i].0@ != entries[j].0@
}

/// With unique keys, every entry is visible in the mapping, and every key
/// of the mapping comes from some entry.
proof fn lemma_map_of_lookup(entries: Seq<(Vec<u8>, LispFn)>)
    requires
        unique_keys(entries),
    ensures
        forall|i: int| #![trigger entries[i]] 0 <= i < entries.len()
            ==> map_of(entries).contains_key(entries[i].0@)
                && map_of(entries)[entries[i].0@] == entries[i].1,
        forall|k: Seq<u8>| map_of(entries).contains_key(k)
            ==> exists|i: int| 0 <= i < entries.len() && entries[i].0@ == k,
    decreases entries.len(),
{
    if entries.len() > 0 {
        let front = entries.drop_last();
        assert(unique_keys(front)) by {
            assert(forall|i: int| 0 <= i < front.len() ==> front[i] == entries[i]);
        }
        lemma_map_of_lookup(front);
        assert forall|i: int| 0 <= i < entries.len()
            implies map_of(entries).contains_key(entries[i].0@)
                && map_of(entries)[entries[i].0@] == entries[i].1 by {
            if i < entries.len() - 1 {
                assert(front[i] == entries[i]);
                assert(entries[i].0@ != entries.last().0@);
            }
        }
        assert forall|k: Seq<u8>| map_of(entries).contains_key(k)
            implies exists|i: int| 0 <= i < entries.len() && entries[i].0@ == k by {
            assert(map_of(entries) == map_of(front).insert(entries.last().0@, entries.last().1));
            if k != entries.last().0@ {
                assert(map_of(front).contains_key(k));
                let i = choose|i: int| 0 <= i < front.len() && front[i].0@ == k;
                assert(front[i] == entries[i]);
                assert(0 <= i < entries.len() && entries[i].0@ == k);
            } else {
                let w = entries.len() - 1;
                assert(0 <= w < entries.len() && entries[w as int].0@ == k);
            }
        }
    }
}

/// Replacing one entry with another for the same key updates exactly that
/// key's image.
proof fn lemma_map_of_update(entries: Seq<(Vec<u8>, LispFn)>, i: int, e: (Vec<u8>, LispFn))
    requires
        unique_keys(entries),
        0 <= i < entries.len(),
        e.0@ == entries[i].0@,
    ensures
        map_of(entries.update(i, e)) == map_of(entries).insert(e.0@, e.1),
    decreases entries.len(),
{
    let updated = entries.update(i, e);
    if i == entries.len() - 1 {
        assert(updated.drop_last() =~= entries.drop_last());
        assert(updated.last() == e);
        assert(map_of(updated) == map_of(entries.drop_last()).insert(e.0@, e.1));
        assert(map_of(entries).insert(e.0@, e.1) =~= map_of(updated));
    } else {
        let front = entries.drop_last();
        assert(unique_keys(front)) by {
            assert(forall|a: int| 0 <= a < front.len() ==> front[a] == entries[a]);
        }
        assert(front[i] == entries[i]);
        lemma_map_of_update(front, i, e);
        assert(updated.drop_last() =~= front.update(i, e));
        assert(updated.last() == entries.last());
        assert(map_of(updated) == map_of(front).insert(e.0@, e.1).insert(
            entries.last().0@,
            entries.last().1,
        ));
        assert(e.0@ != entries.last().0@);
        assert(map_of(front).insert(e.0@, e.1).insert(entries.last().0@, entries.last().1)
            =~= map_of(front).insert(entries.last().0@, entries.last().1).insert(e.0@, e.1));
    }
}

/// The registry mapping function names to native callables, seeded with the
/// built-in primitives by [`GlobalNamespace::new`].
pub struct GlobalNamespace {
    functions: Vec<(Vec<u8>, LispFn)>,
}

impl View for GlobalNamespace {
    type V = Map<Seq<u8>, LispFn>;

    closed spec fn view(&self) -> Map<Seq<u8>, LispFn> {
        map_of(self.functions@)
    }
}

impl GlobalNamespace {
    /// The registry is well formed: no name is registered twice.
    pub closed spec fn wf(&self) -> bool {
        unique_keys(self.functions@)
    }

    /// A namespace with no functions registered.
    pub fn empty() -> (r: GlobalNamespace)
        ensures
            r.wf(),
            r@ == Map::<Seq<u8>, LispFn>::empty(),
    {
        GlobalNamespace { functions: Vec::new() }
    }

    /// A namespace holding every built-in primitive.
    pub fn new() -> (r: GlobalNamespace)
        ensures
            r.wf(),
            r@ == Map::<Seq<u8>, LispFn>::empty().insert(seq![43u8], LispFn::Plus),
    {
        let mut namespace = GlobalNamespace::empty();
        let mut plus: Vec<u8> = Vec::new();
        plus.push(43);
        namespace.defn(plus.as_slice(), LispFn::Plus);
        proof {
            assert(plus@ =~= seq![43u8]);
        }
        namespace
    }

    /// Register `function` under `key`, overwriting any earlier registration.
    pub fn defn(&mut self, key: &[u8], function: LispFn)
        requires
            old(self).wf(),
        ensures
            final(self).wf(),
            final(self)@ == old(self)@.insert(key@, function),
    {
        let ghost entries = self.functions@;
        let mut i: usize = 0;
        while i < self.functions.len()
            invariant
                0 <= i <= entries.len(),
                self.functions@ == entries,
                old(self).functions@ == entries,
                unique_keys(entries),
                forall|j: int| #![trigger entries[j]] 0 <= j < i ==> entries[j].0@ != key@,
            decreases entries.len() - i,
        {
            if bytes_equal(self.functions[i].0.as_slice(), key) {
                let replacement: (Vec<u8>, LispFn) = (slice_to_vec(key), function);
                proof {
                    lemma_map_of_update(entries, i as int, replacement);
                }
                self.functions.set(i, replacement);
                proof {
                    assert forall|a: int, b: int| 0 <= a < b < self.functions@.len()
                        implies self.functions@[a].0@ != self.functions@[b].0@ by {
                        assert(entries[a].0@ != entries[b].0@);
                        if a != i {
                            assert(self.functions@[a] == entries[a]);
                        }
                        if b != i {
                            assert(self.functions@[b] == entries[b]);
                        }
                    }
                }
                return ;
            }
            i = i + 1;
        }
        proof {
            lemma_map_of_lookup(entries);
        }
        self.functions.push((slice_to_vec(key), function));
        proof {
            assert(self.functions@.drop_last() =~= entries);
            assert forall|a: int, b: int| 0 <= a < b < self.functions@.len()
                implies self.functions@[a].0@ != self.functions@[b].0@ by {
                if b == self.functions@.len() - 1 {
                    assert(self.functions@[a] == entries[a]);
                    if !(entries[a].0@ != key@) {
                        assert(map_of(entries).contains_key(entries[a].0@));
                    }
                } else {
                    assert(self.functions@[a] == entries[a]);
                    assert(self.functions@[b] == entries[b]);
                }
            }
        }
    }

    /// Look `key` up and invoke the registered primitive on `arguments`;
    /// an unregistered key is a typed error naming the function.
    pub fn eval(&mut self, key: &[u8], arguments: Vec<Value>) -> (r: Result<Value, EvalError>)
        requires
            old(self).wf(),
            is_ascii_bytes(key@),
        ensures
            final(self).wf(),
            final(self)@ == old(self)@,
            value_result_view(r) == spec_ns_eval(old(self)@, key@, values_view(arguments@)),
    {
        let ghost entries = self.functions@;
        let mut i: usize = 0;
        while i < self.functions.len()
            invariant
                0 <= i <= entries.len(),
                self.functions@ == entries,
                old(self).functions@ == entries,
                unique_keys(entries),
                forall|j: int| #![trigger entries[j]] 0 <= j < i ==> entries[j].0@ != key@,
            decreases entries.len() - i,
        {
            if bytes_equal(self.functions[i].0.as_slice(), key) {
                proof {
                    lemma_map_of_lookup(entries);
                }
                let function: LispFn = self.functions[i].1;
                return function.call(arguments.as_slice());
            }
            i = i + 1;
        }
        proof {
            lemma_map_of_lookup(entries);
        }
        Err(EvalError::UnableToEvalFunction(ascii_to_string(key)))
    }
}

/// What namespace invocation returns: the primitive's own result on a hit,
/// and `UnableToEvalFunction` with the key's text on a miss.
pub open spec fn spec_ns_eval(
    m: Map<Seq<u8>, LispFn>,
    key: Seq<u8>,
    args: Seq<ValueView>,
) -> Result<ValueView, EvalErrorView> {
    if m.contains_key(key) {
        spec_call(m[key], args)
    } else {
        Err(EvalErrorView::UnableToEvalFunction(chars_of_bytes(key)))
    }
}

impl Default for GlobalNamespace {
    /// A namespace with all the primitives: `new` and `default` agree.
    fn default() -> (r: GlobalNamespace)
        ensures
            r.wf(),
            r@ == Map::<Seq<u8>, LispFn>::empty().insert(seq![43u8], LispFn::Plus),
    {
        GlobalNamespace::new()
    }
}

// ---------------------------------------------------------------------------
// Evaluation
// ---------------------------------------------------------------------------

/// Every symbol in a sequence of nodes holds ASCII bytes.
pub open spec fn nodes_ascii(elems: Seq<AstNodeView>) -> bool
    decreases elems, 1int,
{
    if elems.len() == 0 {
        true
    } else {
        nodes_ascii(elems.drop_last()) && node_ascii(elems.last())
    }
}

/// Every symbol in the node holds ASCII bytes; evaluation needs this to
/// name an unknown operator in its error.
pub open spec fn node_ascii(n: AstNodeView) -> bool
    decreases n, 0int,
{
    match n {
        AstNodeView::List(elems) => nodes_ascii(elems),
        AstNodeView::Num(_) => true,
        AstNodeView::Sym(name) => is_ascii_bytes(name),
        AstNodeView::Str(_) => true,
    }
}

/// Symbols are ASCII in a sequence exactly when they are in each element.
pub proof fn lemma_nodes_ascii_index(elems: Seq<AstNodeView>)
    ensures
        nodes_ascii(elems) <==> (forall|i: int| 0 <= i < elems.len() ==> node_ascii(elems[i])),
    decreases elems.len(),
{
    if elems.len() > 0 {
        let front = elems.drop_last();
        lemma_nodes_ascii_index(front);
        assert(forall|i: int| 0 <= i < front.len() ==> front[i] == elems[i]);
        if forall|i: int| 0 <= i < elems.len() ==> node_ascii(elems[i]) {
            assert(forall|i: int| 0 <= i < front.len() ==> node_ascii(front[i]));
        }
    }
}

/// Evaluate the elements of a list form from position `i` on, strictly left
/// to right, stopping at the first error.
pub open spec fn spec_eval_args(
    elems: Seq<AstNodeView>,
    i: int,
    m: Map<Seq<u8>, LispFn>,
) -> Result<Seq<ValueView>, EvalErrorView>
    decreases elems, 1int, elems.len() - i,
{
    if i < 0 || i >= elems.len() {
        Ok(Seq::empty())
    } else {
        match spec_eval(elems[i], m) {
            Err(e) => Err(e),
            Ok(v) => match spec_eval_args(elems, i + 1, m) {
                Err(e) => Err(e),
                Ok(rest) => Ok(seq![v] + rest),
            },
        }
    }
}

/// What evaluation returns. Literals evaluate to the matching value; a bare
/// symbol has no binding; a list must be non-empty with a symbol head, its
/// arguments are evaluated left to right before the operator is looked up,
/// and the primitive's own result is returned verbatim.
pub open spec fn spec_eval(n: AstNodeView, m: Map<Seq<u8>, LispFn>) -> Result<
    ValueView,
    EvalErrorView,
>
    decreases n, 0int, 0int,
{
    match n {
        AstNodeView::Num(v) => Ok(ValueView::Num(v)),
        AstNodeView::Str(s) => Ok(ValueView::Str(s)),
        AstNodeView::Sym(_) => Err(EvalErrorView::InvalidArguments(
            "Cannot eval a plain symbol since vars are not supported yet"@,
        )),
        AstNodeView::List(elems) => {
            if !(elems.len() > 0 && elems[0] is Sym) {
                Err(EvalErrorView::InvalidArguments(
                    "The evaluated value must exist and be a symbol"@,
                ))
            } else {
                match spec_eval_args(elems, 1, m) {
                    Err(e) => Err(e),
                    Ok(args) => spec_ns_eval(m, elems[0]->Sym_0, args),
                }
            }
        },
    }
}

/// Splice a prefix of already-evaluated arguments onto the rest.
pub open spec fn args_join(
    prefix: Seq<ValueView>,
    rest: Result<Seq<ValueView>, EvalErrorView>,
) -> Result<Seq<ValueView>, EvalErrorView> {
    match rest {
        Ok(vals) => Ok(prefix + vals),
        Err(e) => Err(e),
    }
}

/// Evaluate a syntax tree against a namespace of primitives.
///
/// Numbers and strings evaluate to themselves, a bare symbol is an error,
/// and a list form evaluates its arguments strictly left to right — first
/// error wins — before invoking the operator its head names.
pub fn eval(node: &AstNode, global_namespace: &mut GlobalNamespace) -> (r: Result<
    Value,
    EvalError,
>)
    requires
        old(global_namespace).wf(),
        node_ascii(node@),
    ensures
        final(global_namespace).wf(),
        final(global_namespace)@ == old(global_namespace)@,
        value_result_view(r) == spec_eval(node@, old(global_namespace)@),
    decreases node,
{
    let the_list: &Vec<AstNode> = match node {
        AstNode::List(nodes) => nodes,
        AstNode::Num(n) => {
            return Ok(Value::Num(*n));
        },
        AstNode::Sym(_) => {
            return Err(EvalError::InvalidArguments(String::from_str(
                "Cannot eval a plain symbol since vars are not supported yet",
            )));
        },
        AstNode::Str(s) => {
            return Ok(Value::Str(slice_to_vec(s.as_slice())));
        },
    };
    let ghost elems = node_views(the_list@);
    proof {
        lemma_node_views_index(the_list@);
    }
    if the_list.len() == 0 {
        return Err(EvalError::InvalidArguments(String::from_str(
            "The evaluated value must exist and be a symbol",
        )));
    }
    let symbol_name: &Vec<u8> = match &the_list[0] {
        AstNode::Sym(name) => name,
        _ => {
            return Err(EvalError::InvalidArguments(String::from_str(
                "The evaluated value must exist and be a symbol",
            )));
        },
    };
    let mut evaluated_arguments: Vec<Value> = Vec::new();
    let mut j: usize = 1;
    proof {
        assert(values_view(evaluated_arguments@) =~= Seq::<ValueView>::empty());
        match spec_eval_args(elems, 1, old(global_namespace)@) {
            Ok(vals) => {
                assert(Seq::<ValueView>::empty() + vals =~= vals);
            },
            Err(_) => {},
        }
    }
    while j < the_list.len()
        invariant
            old(global_namespace).wf(),
            global_namespace.wf(),
            global_namespace@ == old(global_namespace)@,
            1 <= j <= the_list@.len(),
            *node == AstNode::List(*the_list),
            node@ == AstNodeView::List(elems),
            elems == node_views(the_list@),
            elems.len() == the_list@.len(),
            elems.len() > 0,
            elems[0] == AstNodeView::Sym(symbol_name@),
            node_ascii(node@),
            spec_eval_args(elems, 1, old(global_namespace)@) == args_join(
                values_view(evaluated_arguments@),
                spec_eval_args(elems, j as int, old(global_namespace)@),
            ),
        decreases the_list@.len() - j,
    {
        proof {
            lemma_node_views_index(the_list@);
            lemma_nodes_ascii_index(elems);
            assert(the_list@[j as int]@ == elems[j as int]);
            assert(node_ascii(elems[j as int]));
            assert(node->List_0 == *the_list);
            assert(decreases_to!(*node => node->List_0));
            assert(decreases_to!(*the_list => the_list@));
            assert(decreases_to!(the_list@ => the_list@[j as int]));
        }
        match eval(&the_list[j], global_namespace) {
            Err(e) => {
                return Err(e);
            },
            Ok(v) => {
                proof {
                    let ghost m = old(global_namespace)@;
                    let prefix = values_view(evaluated_arguments@);
                    assert(values_view(evaluated_arguments@.push(v)) =~= prefix.push(v@));
                    match spec_eval_args(elems, j + 1, m) {
                        Ok(rest) => {
                            assert(spec_eval_args(elems, j as int, m) == Ok::<_, EvalErrorView>(
                                seq![v@] + rest,
                            ));
                            assert(prefix + (seq![v@] + rest) =~= prefix.push(v@) + rest);
                        },
                        Err(_) => {},
                    }
                }
                evaluated_arguments.push(v);
                j = j + 1;
            },
        }
    }
    proof {
        assert(spec_eval_args(elems, j as int, old(global_namespace)@) == Ok::<
            Seq<ValueView>,
            EvalErrorView,
        >(Seq::empty()));
        assert(values_view(evaluated_arguments@) + Seq::<ValueView>::empty() =~= values_view(
            evaluated_arguments@,
        ));
        lemma_nodes_ascii_index(elems);
        assert(elems[0] == AstNodeView::Sym(symbol_name@));
    }
    global_namespace.eval(symbol_name.as_slice(), evaluated_arguments)
}

} // verus!