use vstd::prelude::*;

verus! {

/// True when the IEEE-754 single-precision value with these bits is a NaN.
pub open spec fn float_is_nan(bits: u32) -> bool {
    (bits & 0x7f80_0000u32) == 0x7f80_0000u32 && (bits & 0x007f_ffffu32) != 0
}

/// True when the single-precision value with these bits is +0.0 or -0.0.
pub open spec fn float_is_zero(bits: u32) -> bool {
    (bits & 0x7fff_ffffu32) == 0
}

/// IEEE-754 equality of two single-precision values given by their bits:
/// NaN equals nothing, the two zeros are equal, otherwise equal bits.
pub open spec fn float_eq(a: u32, b: u32) -> bool {
    !float_is_nan(a) && !float_is_nan(b) && (a == b || (float_is_zero(a) && float_is_zero(b)))
}

/// Compares two floats, given by their bit patterns, as `==` on `f32` does.
pub fn float_bits_eq(a: u32, b: u32) -> (r: bool)
    ensures
        r == float_eq(a, b),
{
    let a_nan = (a & 0x7f80_0000u32) == 0x7f80_0000u32 && (a & 0x007f_ffffu32) != 0;
    let b_nan = (b & 0x7f80_0000u32) == 0x7f80_0000u32 && (b & 0x007f_ffffu32) != 0;
    !a_nan && !b_nan && (a == b || ((a & 0x7fff_ffffu32) == 0 && (b & 0x7fff_ffffu32) == 0))
}


/// The bindings of a frame: each variable name to the value it is bound to.
pub type Bindings = Map<Seq<char>, SStatement>;

/// The kinds of binary operator a statement can apply.
#[derive(PartialEq, Eq, Structural)]
pub enum BinaryKind {
    Add,
    Subtract,
    Multiply,
    Divide,
    Modulo,
    And,
    Or,
    GreaterThan,
    GreaterThanEqual,
    LessThan,
    LessThanEqual,
    Equal,
}

/// The kinds of unary operator a statement can apply.
#[derive(PartialEq, Eq, Structural)]
pub enum UnaryKind {
    Minus,
    Not,
}

/// The mathematical value of a statement: strings become character sequences,
/// vectors become sequences, and a float is held by its IEEE-754 bits.
pub enum SStatement {
    Float(u32),
    Integer(i32),
    Boolean(bool),
    Atom(Seq<char>),
    Variable(Seq<char>),
    Binary(BinaryKind, Box<SStatement>, Box<SStatement>),
    Unary(UnaryKind, Box<SStatement>),
    Sequence(Seq<SStatement>),
    List(Seq<SStatement>, bool),
    UList(Seq<SStatement>, bool),
    Object(Seq<SStatement>, bool),
    Empty,
}

/// Number of nodes in a statement tree; it bounds the depth of matching.
pub open spec fn size(s: SStatement) -> nat
    decreases s, 0nat,
{
    match s {
        SStatement::Binary(_, a, b) => 1 + size(*a) + size(*b),
        SStatement::Unary(_, a) => 1 + size(*a),
        SStatement::Sequence(items) => 1 + seq_size(items),
        SStatement::List(items, _) => 1 + seq_size(items),
        SStatement::UList(items, _) => 1 + seq_size(items),
        SStatement::Object(items, _) => 1 + seq_size(items),
        _ => 1,
    }
}

/// Total number of nodes of the statements in a sequence.
pub open spec fn seq_size(items: Seq<SStatement>) -> nat
    decreases items, 1nat,
{
    if items.len() == 0 {
        0
    } else {
        size(items[0]) + seq_size(items.subrange(1, items.len() as int))
    }
}

/// Structural equality of statements as `==` compares them; floats compare as `f32` does.
pub open spec fn s_eq(a: SStatement, b: SStatement) -> bool
    decreases a, 0nat,
{
    match (a, b) {
        (SStatement::Float(x), SStatement::Float(y)) => float_eq(x, y),
        (SStatement::Integer(x), SStatement::Integer(y)) => x == y,
        (SStatement::Boolean(x), SStatement::Boolean(y)) => x == y,
        (SStatement::Atom(x), SStatement::Atom(y)) => x == y,
        (SStatement::Variable(x), SStatement::Variable(y)) => x == y,
        (SStatement::Binary(k1, x1, y1), SStatement::Binary(k2, x2, y2)) =>
            k1 == k2 && s_eq(*x1, *x2) && s_eq(*y1, *y2),
        (SStatement::Unary(k1, x1), SStatement::Unary(k2, x2)) => k1 == k2 && s_eq(*x1, *x2),
        (SStatement::Sequence(i1), SStatement::Sequence(i2)) => seq_eq(i1, i2),
        (SStatement::List(i1, p1), SStatement::List(i2, p2)) => seq_eq(i1, i2) && p1 == p2,
        (SStatement::UList(i1, p1), SStatement::UList(i2, p2)) => seq_eq(i1, i2) && p1 == p2,
        (SStatement::Object(i1, p1), SStatement::Object(i2, p2)) => seq_eq(i1, i2) && p1 == p2,
        (SStatement::Empty, SStatement::Empty) => true,
        _ => false,
    }
}

/// Element-wise `s_eq` of two sequences of equal length.
pub open spec fn seq_eq(i1: Seq<SStatement>, i2: Seq<SStatement>) -> bool
    decreases i1, 1nat,
{
    if i1.len() != i2.len() {
        false
    } else if i1.len() == 0 {
        true
    } else {
        s_eq(i1[0], i2[0]) && seq_eq(
            i1.subrange(1, i1.len() as int),
            i2.subrange(1, i2.len() as int),
        )
    }
}

pub proof fn lemma_size_positive(s: SStatement)
    ensures
        size(s) >= 1,
{
}

/// The size of a sequence bounds the size of each element and of every slice of it.
pub proof fn lemma_seq_size_parts(items: Seq<SStatement>, k: int)
    requires
        0 <= k <= items.len(),
    ensures
        seq_size(items) == seq_size(items.subrange(0, k)) + seq_size(
            items.subrange(k, items.len() as int),
        ),
    decreases items.len(),
{
    if k == 0 {
        assert(items.subrange(0, 0) =~= Seq::<SStatement>::empty());
        assert(items.subrange(0, items.len() as int) =~= items);
    } else {
        let rest = items.subrange(1, items.len() as int);
        lemma_seq_size_parts(rest, k - 1);
        assert(items.subrange(0, k).subrange(1, k) =~= rest.subrange(0, k - 1));
        assert(items.subrange(0, k)[0] == items[0]);
        assert(rest.subrange(k - 1, rest.len() as int) =~= items.subrange(k, items.len() as int));
    }
}

/// An element weighs no more than the sequence it stands in.
pub proof fn lemma_seq_size_elem(items: Seq<SStatement>, k: int)
    requires
        0 <= k < items.len(),
    ensures
        size(items[k]) <= seq_size(items),
{
    lemma_seq_size_parts(items, k);
    let tail = items.subrange(k, items.len() as int);
    assert(tail[0] == items[k]);
}

/// `seq_eq` holds exactly of equal-length sequences whose elements are pairwise `s_eq`.
pub proof fn lemma_seq_eq(a: Seq<SStatement>, b: Seq<SStatement>)
    ensures
        seq_eq(a, b) <==> (a.len() == b.len() && forall|i: int| 0 <= i < a.len() ==> s_eq(#[trigger] a[i], b[i])),
    decreases a.len(),
{
    if a.len() == b.len() && a.len() > 0 {
        let ta = a.subrange(1, a.len() as int);
        let tb = b.subrange(1, b.len() as int);
        lemma_seq_eq(ta, tb);
        if forall|i: int| 0 <= i < a.len() ==> s_eq(#[trigger] a[i], b[i]) {
            assert forall|i: int| 0 <= i < ta.len() implies s_eq(#[trigger] ta[i], tb[i]) by {
                assert(ta[i] == a[i + 1] && tb[i] == b[i + 1]);
            }
        }
        if seq_eq(a, b) {
            assert forall|i: int| 0 <= i < a.len() implies s_eq(#[trigger] a[i], b[i]) by {
                if i > 0 {
                    assert(ta[i - 1] == a[i] && tb[i - 1] == b[i]);
                }
            }
        }
    }
}

/// The value a statement evaluates to: numbers evaluate to themselves, a sum of two
/// integers to their sum, a negation to the negated value. `None` where evaluation is
/// not defined here: other statements and operators, a sum or negation that leaves
/// 32 bits, and sums involving a float, whose arithmetic is not carried out here.
pub open spec fn eval_value(s: SStatement) -> Option<SStatement>
    decreases s,
{
    match s {
        SStatement::Float(x) => Some(SStatement::Float(x)),
        SStatement::Integer(x) => Some(SStatement::Integer(x)),
        SStatement::Binary(BinaryKind::Add, a, b) => match (eval_value(*a), eval_value(*b)) {
            (Some(SStatement::Integer(x)), Some(SStatement::Integer(y))) => if i32::MIN <= x + y
                <= i32::MAX {
                Some(SStatement::Integer((x + y) as i32))
            } else {
                None
            },
            _ => None,
        },
        SStatement::Unary(UnaryKind::Minus, a) => match eval_value(*a) {
            Some(SStatement::Integer(x)) => if x != i32::MIN {
                Some(SStatement::Integer((-x) as i32))
            } else {
                None
            },
            Some(SStatement::Float(x)) => Some(SStatement::Float(x ^ 0x8000_0000u32)),
            Some(SStatement::Boolean(x)) => Some(SStatement::Boolean(!x)),
            _ => None,
        },
        _ => None,
    }
}

/// Evaluation yields a number, and evaluating that number again gives it back.
pub proof fn law_evaluate_gives_value(s: SStatement)
    ensures
        eval_value(s) matches Some(v) ==> (v is Integer || v is Float) && eval_value(v) == Some(v),
    decreases s,
{
    match s {
        SStatement::Binary(BinaryKind::Add, a, b) => {
            law_evaluate_gives_value(*a);
            law_evaluate_gives_value(*b);
        },
        SStatement::Unary(UnaryKind::Minus, a) => {
            law_evaluate_gives_value(*a);
        },
        _ => {},
    }
}

/// The frames a primitive comparison yields: one empty frame on a match, none otherwise.
pub open spec fn match_primitive(matched: bool) -> Seq<Bindings> {
    if matched {
        seq![Map::empty()]
    } else {
        Seq::empty()
    }
}

/// Matching variable `name` against the value `s` under the bindings `f`:
/// `_` matches anything; a bound variable matches a value equal to its own;
/// a free variable matches anything and is bound to it.
pub open spec fn match_variable(name: Seq<char>, s: SStatement, f: Bindings) -> Seq<Bindings> {
    if name == seq!['_'] {
        seq![Map::empty()]
    } else if f.contains_key(name) {
        match_primitive(s_eq(f[name], s))
    } else {
        seq![Map::empty().insert(name, s)]
    }
}

/// Looking up variable `name` against `s` under `f` stops here: `name` is `_` or free,
/// its value equals `s`, or its value is no variable.
pub open spec fn lookup_stops(name: Seq<char>, s: SStatement, f: Bindings) -> bool {
    name == seq!['_'] || !f.contains_key(name) || s_eq(f[name], s) || !(f[name] is Variable)
}

/// The variable that variable `name`, bound to it, hands the lookup on to.
pub open spec fn next_in_chain(name: Seq<char>, f: Bindings) -> Seq<char> {
    f[name]->Variable_0
}

/// The lookup of `name` against `s` under `f`, following variables bound to
/// variables, stops within `fuel` steps.
pub open spec fn lookup_ends_within(name: Seq<char>, s: SStatement, f: Bindings, fuel: nat) -> bool
    decreases fuel,
{
    if lookup_stops(name, s, f) {
        true
    } else if fuel == 0 {
        false
    } else {
        lookup_ends_within(next_in_chain(name, f), s, f, (fuel - 1) as nat)
    }
}

/// Matching variable `name` against `s` under `f` comes to an end: following the
/// variables that bound variables are bound to does not go round a cycle for ever.
pub open spec fn lookup_ends(name: Seq<char>, s: SStatement, f: Bindings) -> bool {
    exists|fuel: nat| lookup_ends_within(name, s, f, fuel)
}

/// Where the lookup does not stop at `name`, it ends exactly where it ends from the
/// variable `name` is bound to.
pub proof fn lemma_lookup_ends_step(name: Seq<char>, s: SStatement, f: Bindings)
    requires
        !lookup_stops(name, s, f),
    ensures
        lookup_ends(name, s, f) == lookup_ends(next_in_chain(name, f), s, f),
{
    if lookup_ends(name, s, f) {
        let fuel = choose|fuel: nat| lookup_ends_within(name, s, f, fuel);
        assert(lookup_ends_within(next_in_chain(name, f), s, f, (fuel - 1) as nat));
    }
    if lookup_ends(next_in_chain(name, f), s, f) {
        let fuel = choose|fuel: nat| lookup_ends_within(next_in_chain(name, f), s, f, fuel);
        assert(lookup_ends_within(name, s, f, fuel + 1));
    }
}

/// Where the lookup stops at `name`, it ends.
pub proof fn lemma_lookup_ends_stop(name: Seq<char>, s: SStatement, f: Bindings)
    requires
        lookup_stops(name, s, f),
    ensures
        lookup_ends(name, s, f),
{
    assert(lookup_ends_within(name, s, f, 0));
}

/// A cycle of variables, each bound to the next and the last to the first, none
/// stopping the lookup: the lookup never ends from any of them.
pub proof fn lemma_lookup_cycle(cycle: Seq<Seq<char>>, s: SStatement, f: Bindings, fuel: nat)
    requires
        cycle.len() > 0,
        forall|k: int| 0 <= k < cycle.len() ==> !lookup_stops(#[trigger] cycle[k], s, f),
        forall|k: int| 0 <= k < cycle.len() - 1 ==> next_in_chain(#[trigger] cycle[k], f) == cycle[k + 1],
        next_in_chain(cycle.last(), f) == cycle[0],
    ensures
        forall|k: int| 0 <= k < cycle.len() ==> !lookup_ends_within(#[trigger] cycle[k], s, f, fuel),
    decreases fuel,
{
    if fuel > 0 {
        lemma_lookup_cycle(cycle, s, f, (fuel - 1) as nat);
        assert forall|k: int| 0 <= k < cycle.len() implies !lookup_ends_within(#[trigger] cycle[k], s, f, fuel) by {
            if k < cycle.len() - 1 {
                assert(!lookup_ends_within(cycle[k + 1], s, f, (fuel - 1) as nat));
            } else {
                assert(!lookup_ends_within(cycle[0], s, f, (fuel - 1) as nat));
            }
        }
    }
}

/// Each new frame extended by the bindings of the frame it grew from, which win.
pub open spec fn join_each(fs: Seq<Bindings>, parent: Bindings) -> Seq<Bindings> {
    fs.map_values(|m: Bindings| m.union_prefer_right(parent))
}

/// The frames in which statements `a` and `b` match, given the bindings `f`;
/// `None` where matching them fails outright (an empty run on both sides, a piped
/// list with no items) or never comes to an end (a variable whose lookup goes round
/// a cycle of variables bound to one another).
pub open spec fn match_statement(a: SStatement, b: SStatement, f: Bindings) -> Option<Seq<Bindings>>
    decreases size(a) + size(b), 2nat, 0nat,
{
    match (a, b) {
        (SStatement::Atom(x), SStatement::Atom(y)) => Some(match_primitive(x == y)),
        (SStatement::Integer(x), SStatement::Integer(y)) => Some(match_primitive(x == y)),
        (SStatement::Float(x), SStatement::Float(y)) => Some(match_primitive(float_eq(x, y))),
        (SStatement::Variable(v), _) => if lookup_ends(v, b, f) {
            Some(match_variable(v, b, f))
        } else {
            None
        },
        (_, SStatement::Variable(v)) => if lookup_ends(v, a, f) {
            Some(match_variable(v, a, f))
        } else {
            None
        },
        (SStatement::List(i1, p1), SStatement::List(i2, p2)) => match_list(i1, p1, i2, p2, f),
        _ => Some(Seq::empty()),
    }
}

/// Matching two lists. Lists piped alike match item by item. A piped list against
/// an unpiped one matches its leading items against as many of the other's, and
/// its tail against the unpiped list of what remains.
pub open spec fn match_list(
    i1: Seq<SStatement>,
    p1: bool,
    i2: Seq<SStatement>,
    p2: bool,
    f: Bindings,
) -> Option<Seq<Bindings>>
    decreases seq_size(i1) + seq_size(i2) + 2, 1nat, 0nat,
{
    if p1 == p2 {
        match_sequence(i1, i2, f)
    } else if p1 {
        if i1.len() == 0 {
            None
        } else {
            let ps = i1.len() - 1;
            if ps > i2.len() {
                Some(Seq::empty())
            } else {
                proof {
                    lemma_seq_size_parts(i1, ps);
                    lemma_seq_size_parts(i2, ps);
                    lemma_seq_size_elem(i1, ps);
                }
                match match_sequence(i1.subrange(0, ps), i2.subrange(0, ps), f) {
                    None => None,
                    Some(xs) => match_each(
                        i1[ps],
                        SStatement::List(i2.subrange(ps, i2.len() as int), false),
                        xs,
                    ),
                }
            }
        }
    } else {
        if i2.len() == 0 {
            None
        } else {
            let ps = i2.len() - 1;
            if ps > i1.len() {
                Some(Seq::empty())
            } else {
                proof {
                    lemma_seq_size_parts(i1, ps);
                    lemma_seq_size_parts(i2, ps);
                    lemma_seq_size_elem(i2, ps);
                }
                match match_sequence(i1.subrange(0, ps), i2.subrange(0, ps), f) {
                    None => None,
                    Some(xs) => match_each(
                        SStatement::List(i1.subrange(ps, i1.len() as int), false),
                        i2[ps],
                        xs,
                    ),
                }
            }
        }
    }
}

/// Matching two runs under the bindings `f`: none where their lengths differ.
pub open spec fn match_sequence(s1: Seq<SStatement>, s2: Seq<SStatement>, f: Bindings) -> Option<
    Seq<Bindings>,
>
    decreases seq_size(s1) + seq_size(s2), 5nat, 0nat,
{
    if s1.len() != s2.len() {
        Some(Seq::empty())
    } else {
        match_chain(s1, s2, seq![f])
    }
}

/// Matching two runs of equal, nonzero length position by position: the frames of
/// each position grow from those of the position before, starting from `parents`.
pub open spec fn match_chain(s1: Seq<SStatement>, s2: Seq<SStatement>, parents: Seq<Bindings>) -> Option<
    Seq<Bindings>,
>
    decreases seq_size(s1) + seq_size(s2), 4nat, 0nat,
{
    if s1.len() == 0 || s1.len() != s2.len() {
        None
    } else {
        match match_each(s1[0], s2[0], parents) {
            None => None,
            Some(g) => if s1.len() == 1 {
                Some(g)
            } else {
                proof {
                    lemma_size_positive(s1[0]);
                    lemma_size_positive(s2[0]);
                }
                match_chain(s1.subrange(1, s1.len() as int), s2.subrange(1, s2.len() as int), g)
            },
        }
    }
}

/// Matching `x1` against `x2` under each parent frame in turn: the frames found under
/// a parent, each extended by that parent's bindings, in the order of the parents.
pub open spec fn match_each(x1: SStatement, x2: SStatement, parents: Seq<Bindings>) -> Option<
    Seq<Bindings>,
>
    decreases size(x1) + size(x2), 3nat, parents.len(),
{
    if parents.len() == 0 {
        Some(Seq::empty())
    } else {
        match match_statement(x1, x2, parents[0]) {
            None => None,
            Some(fs) => match match_each(x1, x2, parents.subrange(1, parents.len() as int)) {
                None => None,
                Some(rest) => Some(join_each(fs, parents[0]) + rest),
            },
        }
    }
}

/// The anonymous variable `_` matches any statement, yielding one frame that binds nothing.
pub proof fn law_anonymous_matches_anything(s: SStatement, f: Bindings)
    ensures
        match_statement(SStatement::Variable(seq!['_']), s, f) == Some(seq![Map::<Seq<char>, SStatement>::empty()]),
        !(s is Variable) ==> match_statement(s, SStatement::Variable(seq!['_']), f) == Some(
            seq![Map::<Seq<char>, SStatement>::empty()],
        ),
{
    lemma_lookup_ends_stop(seq!['_'], s, f);
}

/// A free variable (not `_`, not bound) matches any statement and is bound to it.
pub proof fn law_free_variable_binds(v: Seq<char>, s: SStatement, f: Bindings)
    requires
        v != seq!['_'],
        !f.contains_key(v),
    ensures
        match_statement(SStatement::Variable(v), s, f) == Some(seq![Map::<Seq<char>, SStatement>::empty().insert(v, s)]),
{
    lemma_lookup_ends_stop(v, s, f);
}

/// A bound variable matches exactly the statements equal to its value, binding
/// nothing; against any other statement it yields no frame, once its lookup ends.
pub proof fn law_bound_variable_matches_its_value(v: Seq<char>, s: SStatement, f: Bindings)
    requires
        v != seq!['_'],
        f.contains_key(v),
    ensures
        s_eq(f[v], s) ==> match_statement(SStatement::Variable(v), s, f) == Some(seq![Map::<Seq<char>, SStatement>::empty()]),
        !s_eq(f[v], s) ==> match_statement(SStatement::Variable(v), s, f) == (if lookup_ends(v, s, f) {
            Some(Seq::<Bindings>::empty())
        } else {
            None
        }),
        !(f[v] is Variable) ==> lookup_ends(v, s, f),
{
    if s_eq(f[v], s) || !(f[v] is Variable) {
        lemma_lookup_ends_stop(v, s, f);
    }
}

/// Matching two statements yields at most one frame.
pub proof fn law_match_statement_at_most_one(a: SStatement, b: SStatement, f: Bindings)
    ensures
        match_statement(a, b, f) matches Some(fs) ==> fs.len() <= 1,
    decreases size(a) + size(b), 2nat, 0nat,
{
    match (a, b) {
        (SStatement::Atom(x), SStatement::Atom(y)) => {},
        (SStatement::Integer(x), SStatement::Integer(y)) => {},
        (SStatement::Float(x), SStatement::Float(y)) => {},
        (SStatement::Variable(v), _) => {},
        (_, SStatement::Variable(v)) => {},
        (SStatement::List(i1, p1), SStatement::List(i2, p2)) => {
            lemma_match_list_at_most_one(i1, p1, i2, p2, f);
        },
        _ => {},
    }
}

/// Matching two lists yields at most one frame.
proof fn lemma_match_list_at_most_one(i1: Seq<SStatement>, p1: bool, i2: Seq<SStatement>, p2: bool, f: Bindings)
    ensures
        match_list(i1, p1, i2, p2, f) matches Some(fs) ==> fs.len() <= 1,
    decreases seq_size(i1) + seq_size(i2) + 2, 1nat, 0nat,
{
    if p1 == p2 {
        law_match_sequence_at_most_one(i1, i2, f);
    } else if p1 {
        if i1.len() > 0 {
            let ps = i1.len() - 1;
            if ps <= i2.len() {
                lemma_seq_size_parts(i1, ps);
                lemma_seq_size_parts(i2, ps);
                lemma_seq_size_elem(i1, ps);
                law_match_sequence_at_most_one(i1.subrange(0, ps), i2.subrange(0, ps), f);
                if let Some(xs) = match_sequence(i1.subrange(0, ps), i2.subrange(0, ps), f) {
                    lemma_match_each_count(i1[ps], SStatement::List(i2.subrange(ps, i2.len() as int), false), xs);
                }
            }
        }
    } else {
        if i2.len() > 0 {
            let ps = i2.len() - 1;
            if ps <= i1.len() {
                lemma_seq_size_parts(i1, ps);
                lemma_seq_size_parts(i2, ps);
                lemma_seq_size_elem(i2, ps);
                law_match_sequence_at_most_one(i1.subrange(0, ps), i2.subrange(0, ps), f);
                if let Some(xs) = match_sequence(i1.subrange(0, ps), i2.subrange(0, ps), f) {
                    lemma_match_each_count(SStatement::List(i1.subrange(ps, i1.len() as int), false), i2[ps], xs);
                }
            }
        }
    }
}

/// Matching two runs yields at most one frame.
pub proof fn law_match_sequence_at_most_one(s1: Seq<SStatement>, s2: Seq<SStatement>, f: Bindings)
    ensures
        match_sequence(s1, s2, f) matches Some(fs) ==> fs.len() <= 1,
    decreases seq_size(s1) + seq_size(s2), 5nat, 0nat,
{
    if s1.len() == s2.len() {
        lemma_match_chain_count(s1, s2, seq![f]);
    }
}

/// Matching runs position by position yields at most one frame per parent frame.
proof fn lemma_match_chain_count(s1: Seq<SStatement>, s2: Seq<SStatement>, parents: Seq<Bindings>)
    ensures
        match_chain(s1, s2, parents) matches Some(fs) ==> fs.len() <= parents.len(),
    decreases seq_size(s1) + seq_size(s2), 4nat, 0nat,
{
    if s1.len() > 0 && s1.len() == s2.len() {
        lemma_match_each_count(s1[0], s2[0], parents);
        if let Some(g) = match_each(s1[0], s2[0], parents) {
            if s1.len() > 1 {
                lemma_size_positive(s1[0]);
                lemma_size_positive(s2[0]);
                lemma_match_chain_count(s1.subrange(1, s1.len() as int), s2.subrange(1, s2.len() as int), g);
            }
        }
    }
}

/// Matching under each parent frame yields at most one frame per parent.
proof fn lemma_match_each_count(x1: SStatement, x2: SStatement, parents: Seq<Bindings>)
    ensures
        match_each(x1, x2, parents) matches Some(fs) ==> fs.len() <= parents.len(),
    decreases size(x1) + size(x2), 3nat, parents.len(),
{
    if parents.len() > 0 {
        law_match_statement_at_most_one(x1, x2, parents[0]);
        lemma_match_each_count(x1, x2, parents.subrange(1, parents.len() as int));
    }
}

/// Each frame found under some parents extends one of those parents: it keeps all
/// of that parent's bindings.
proof fn lemma_match_each_extends(x1: SStatement, x2: SStatement, parents: Seq<Bindings>)
    ensures
        match_each(x1, x2, parents) matches Some(fs) ==> forall|j: int| #![trigger fs[j]] 0 <= j < fs.len() ==>
            exists|i: int| 0 <= i < parents.len() && (#[trigger] parents[i]).submap_of(fs[j]),
    decreases parents.len(),
{
    if parents.len() > 0 {
        let rest_p = parents.subrange(1, parents.len() as int);
        lemma_match_each_extends(x1, x2, rest_p);
        if let Some(fs) = match_each(x1, x2, parents) {
            let m = match_statement(x1, x2, parents[0]).unwrap();
            let rest = match_each(x1, x2, rest_p).unwrap();
            let head = join_each(m, parents[0]);
            assert(fs == head + rest);
            assert forall|j: int| #![trigger fs[j]] 0 <= j < fs.len() implies exists|i: int| 0 <= i < parents.len() && (#[trigger] parents[i]).submap_of(fs[j]) by {
                if j < head.len() {
                    assert(fs[j] == m[j].union_prefer_right(parents[0]));
                    assert(parents[0].submap_of(fs[j]));
                } else {
                    assert(fs[j] == rest[j - head.len()]);
                    let i = choose|i: int| 0 <= i < rest_p.len() && (#[trigger] rest_p[i]).submap_of(rest[j - head.len()]);
                    assert(parents[i + 1] == rest_p[i]);
                }
            }
        }
    }
}

/// When every parent frame extends `f`, so does every frame found along the runs.
proof fn lemma_match_chain_extends(s1: Seq<SStatement>, s2: Seq<SStatement>, parents: Seq<Bindings>, f: Bindings)
    requires
        forall|i: int| 0 <= i < parents.len() ==> f.submap_of(#[trigger] parents[i]),
    ensures
        match_chain(s1, s2, parents) matches Some(fs) ==> forall|j: int| 0 <= j < fs.len() ==> f.submap_of(#[trigger] fs[j]),
    decreases s1.len(),
{
    if s1.len() > 0 && s1.len() == s2.len() {
        lemma_match_each_extends(s1[0], s2[0], parents);
        if let Some(g) = match_each(s1[0], s2[0], parents) {
            assert forall|j: int| 0 <= j < g.len() implies f.submap_of(#[trigger] g[j]) by {
                let i = choose|i: int| 0 <= i < parents.len() && (#[trigger] parents[i]).submap_of(g[j]);
                assert(f.submap_of(parents[i]));
                assert forall|k: Seq<char>| #[trigger] f.dom().contains(k) implies g[j].dom().contains(k) && f[k] == g[j][k] by {
                    assert(parents[i].dom().contains(k));
                }
            }
            if s1.len() > 1 {
                lemma_match_chain_extends(s1.subrange(1, s1.len() as int), s2.subrange(1, s2.len() as int), g, f);
            }
        }
    }
}

/// Matching two runs under the bindings `f` never drops or changes a binding of `f`:
/// every frame found extends `f`.
pub proof fn law_match_sequence_extends(s1: Seq<SStatement>, s2: Seq<SStatement>, f: Bindings)
    ensures
        match_sequence(s1, s2, f) matches Some(fs) ==> forall|j: int| 0 <= j < fs.len() ==> f.submap_of(#[trigger] fs[j]),
{
    if s1.len() == s2.len() {
        lemma_match_chain_extends(s1, s2, seq![f], f);
    }
}

/// Two lists piped alike match exactly as their runs of items do.
pub proof fn law_lists_piped_alike_match_as_runs(i1: Seq<SStatement>, i2: Seq<SStatement>, piped: bool, f: Bindings)
    ensures
        match_list(i1, piped, i2, piped, f) == match_sequence(i1, i2, f),
{
}

/// The frames found under one parent frame: each frame of the match, extended by the
/// parent's bindings.
pub open spec fn frames_under(x1: SStatement, x2: SStatement, parent: Bindings) -> Seq<Bindings> {
    join_each(match_statement(x1, x2, parent).unwrap(), parent)
}

/// Matching under each parent frame in turn is defined exactly when matching under
/// every parent is, and then gives, parent by parent in order, the frames found under
/// that parent: a flat map over the parents.
pub proof fn law_match_each_flat_maps(x1: SStatement, x2: SStatement, parents: Seq<Bindings>)
    ensures
        match_each(x1, x2, parents) is Some <==> forall|i: int| 0 <= i < parents.len() ==> (#[trigger] match_statement(x1, x2, parents[i])) is Some,
        match_each(x1, x2, parents) is Some ==> match_each(x1, x2, parents).unwrap() == parents.flat_map(
            |p: Bindings| frames_under(x1, x2, p),
        ),
    decreases parents.len(),
{
    let g = |p: Bindings| frames_under(x1, x2, p);
    if parents.len() == 0 {
        assert(parents.map_values(g) =~= Seq::<Seq<Bindings>>::empty());
    } else {
        let rest = parents.subrange(1, parents.len() as int);
        law_match_each_flat_maps(x1, x2, rest);
        assert forall|i: int| 0 <= i < rest.len() implies rest[i] == parents[i + 1] by {}
        if (forall|i: int| 0 <= i < parents.len() ==> (#[trigger] match_statement(x1, x2, parents[i])) is Some) {
            assert(match_statement(x1, x2, parents[0]) is Some);
            assert forall|i: int| 0 <= i < rest.len() implies (#[trigger] match_statement(x1, x2, rest[i])) is Some by {
                assert(match_statement(x1, x2, parents[i + 1]) is Some);
            }
        }
        if match_each(x1, x2, parents) is Some {
            assert forall|i: int| 0 <= i < parents.len() implies (#[trigger] match_statement(x1, x2, parents[i])) is Some by {
                if i > 0 {
                    assert(match_statement(x1, x2, rest[i - 1]) is Some);
                }
            }
            let m = parents.map_values(g);
            assert(m.drop_first() =~= rest.map_values(g));
            assert(m.first() == g(parents[0]));
        }
    }
}

/// Matching two runs position by position is the fold, from the left, of matching one
/// position under each of the frames found so far: the last position is matched under
/// the frames of all the positions before it.
pub proof fn law_match_chain_folds(s1: Seq<SStatement>, s2: Seq<SStatement>, parents: Seq<Bindings>)
    requires
        s1.len() == s2.len(),
        s1.len() > 1,
    ensures
        match_chain(s1, s2, parents) == (match match_chain(s1.drop_last(), s2.drop_last(), parents) {
            None => None,
            Some(g) => match_each(s1.last(), s2.last(), g),
        }),
    decreases s1.len(),
{
    let t1 = s1.subrange(1, s1.len() as int);
    let t2 = s2.subrange(1, s2.len() as int);
    let d1 = s1.drop_last();
    let d2 = s2.drop_last();
    assert(d1[0] == s1[0] && d2[0] == s2[0]);
    match match_each(s1[0], s2[0], parents) {
        None => {
            assert(match_chain(s1, s2, parents) is None);
            assert(match_chain(d1, d2, parents) is None);
        },
        Some(g0) => {
            assert(match_chain(s1, s2, parents) == match_chain(t1, t2, g0));
            if s1.len() == 2 {
                assert(t1[0] == s1.last() && t2[0] == s2.last());
                assert(match_chain(t1, t2, g0) == match_each(t1[0], t2[0], g0));
                assert(match_chain(d1, d2, parents) == Some(g0));
            } else {
                law_match_chain_folds(t1, t2, g0);
                assert(t1.drop_last() =~= d1.subrange(1, d1.len() as int));
                assert(t2.drop_last() =~= d2.subrange(1, d2.len() as int));
                assert(t1.last() == s1.last() && t2.last() == s2.last());
                assert(match_chain(d1, d2, parents) == match_chain(t1.drop_last(), t2.drop_last(), g0));
            }
        },
    }
}

/// A statement with no variable anywhere in it.
pub open spec fn vars_free(s: SStatement) -> bool
    decreases s, 0nat,
{
    match s {
        SStatement::Variable(_) => false,
        SStatement::Binary(_, a, b) => vars_free(*a) && vars_free(*b),
        SStatement::Unary(_, a) => vars_free(*a),
        SStatement::Sequence(items) => seq_vars_free(items),
        SStatement::List(items, _) => seq_vars_free(items),
        SStatement::UList(items, _) => seq_vars_free(items),
        SStatement::Object(items, _) => seq_vars_free(items),
        _ => true,
    }
}

/// A run of statements with no variable anywhere in them.
pub open spec fn seq_vars_free(items: Seq<SStatement>) -> bool
    decreases items, 1nat,
{
    if items.len() == 0 {
        true
    } else {
        vars_free(items[0]) && seq_vars_free(items.subrange(1, items.len() as int))
    }
}

/// A run has no variable exactly when none of its statements has one.
pub proof fn lemma_seq_vars_free(items: Seq<SStatement>)
    ensures
        seq_vars_free(items) <==> forall|i: int| 0 <= i < items.len() ==> vars_free(#[trigger] items[i]),
    decreases items.len(),
{
    if items.len() > 0 {
        let t = items.subrange(1, items.len() as int);
        lemma_seq_vars_free(t);
        if forall|i: int| 0 <= i < items.len() ==> vars_free(#[trigger] items[i]) {
            assert forall|i: int| 0 <= i < t.len() implies vars_free(#[trigger] t[i]) by {
                assert(t[i] == items[i + 1]);
            }
        }
        if seq_vars_free(items) {
            assert forall|i: int| 0 <= i < items.len() implies vars_free(#[trigger] items[i]) by {
                if i > 0 {
                    assert(t[i - 1] == items[i]);
                }
            }
        }
    }
}

/// A slice of a run without variables has none either.
proof fn lemma_seq_vars_free_subrange(items: Seq<SStatement>, a: int, b: int)
    requires
        seq_vars_free(items),
        0 <= a <= b <= items.len(),
    ensures
        seq_vars_free(items.subrange(a, b)),
{
    lemma_seq_vars_free(items);
    lemma_seq_vars_free(items.subrange(a, b));
    assert forall|i: int| 0 <= i < b - a implies vars_free(#[trigger] items.subrange(a, b)[i]) by {
        assert(items.subrange(a, b)[i] == items[a + i]);
    }
}

/// Matching is symmetric when one of the two statements has no variable: swapping them
/// gives the same frames, in the same order. (Where both sides are variables, the
/// left one is bound to the right one, so the two orders bind different variables.)
pub proof fn law_match_statement_symmetric(a: SStatement, b: SStatement, f: Bindings)
    requires
        vars_free(a) || vars_free(b),
    ensures
        match_statement(a, b, f) == match_statement(b, a, f),
    decreases size(a) + size(b), 2nat, 0nat,
{
    match (a, b) {
        (SStatement::List(i1, p1), SStatement::List(i2, p2)) => {
            lemma_match_list_symmetric(i1, p1, i2, p2, f);
        },
        _ => {},
    }
}

/// Matching two lists is symmetric when one of them has no variable.
proof fn lemma_match_list_symmetric(i1: Seq<SStatement>, p1: bool, i2: Seq<SStatement>, p2: bool, f: Bindings)
    requires
        seq_vars_free(i1) || seq_vars_free(i2),
    ensures
        match_list(i1, p1, i2, p2, f) == match_list(i2, p2, i1, p1, f),
    decreases seq_size(i1) + seq_size(i2) + 2, 1nat, if p1 { 0nat } else { 1nat },
{
    if p1 == p2 {
        law_match_sequence_symmetric(i1, i2, f);
    } else if p1 {
        if i1.len() > 0 {
            let ps = i1.len() - 1;
            if ps <= i2.len() {
                lemma_seq_size_parts(i1, ps);
                lemma_seq_size_parts(i2, ps);
                lemma_seq_size_elem(i1, ps);
                lemma_seq_vars_free(i1);
                if seq_vars_free(i1) {
                    lemma_seq_vars_free_subrange(i1, 0, ps);
                } else {
                    lemma_seq_vars_free_subrange(i2, 0, ps);
                    lemma_seq_vars_free_subrange(i2, ps, i2.len() as int);
                }
                law_match_sequence_symmetric(i1.subrange(0, ps), i2.subrange(0, ps), f);
                if let Some(xs) = match_sequence(i1.subrange(0, ps), i2.subrange(0, ps), f) {
                    lemma_match_each_symmetric(i1[ps], SStatement::List(i2.subrange(ps, i2.len() as int), false), xs);
                }
            }
        }
    } else {
        lemma_match_list_symmetric(i2, p2, i1, p1, f);
    }
}

/// Matching two runs is symmetric when one of them has no variable.
pub proof fn law_match_sequence_symmetric(s1: Seq<SStatement>, s2: Seq<SStatement>, f: Bindings)
    requires
        seq_vars_free(s1) || seq_vars_free(s2),
    ensures
        match_sequence(s1, s2, f) == match_sequence(s2, s1, f),
    decreases seq_size(s1) + seq_size(s2), 5nat, 0nat,
{
    if s1.len() == s2.len() {
        lemma_match_chain_symmetric(s1, s2, seq![f]);
    }
}

/// Matching runs position by position is symmetric when one of them has no variable.
proof fn lemma_match_chain_symmetric(s1: Seq<SStatement>, s2: Seq<SStatement>, parents: Seq<Bindings>)
    requires
        seq_vars_free(s1) || seq_vars_free(s2),
    ensures
        match_chain(s1, s2, parents) == match_chain(s2, s1, parents),
    decreases seq_size(s1) + seq_size(s2), 4nat, 0nat,
{
    if s1.len() > 0 && s1.len() == s2.len() {
        lemma_match_each_symmetric(s1[0], s2[0], parents);
        if let Some(g) = match_each(s1[0], s2[0], parents) {
            if s1.len() > 1 {
                lemma_size_positive(s1[0]);
                lemma_size_positive(s2[0]);
                lemma_match_chain_symmetric(s1.subrange(1, s1.len() as int), s2.subrange(1, s2.len() as int), g);
            }
        }
    }
}

/// Matching under each parent frame is symmetric when one statement has no variable.
proof fn lemma_match_each_symmetric(x1: SStatement, x2: SStatement, parents: Seq<Bindings>)
    requires
        vars_free(x1) || vars_free(x2),
    ensures
        match_each(x1, x2, parents) == match_each(x2, x1, parents),
    decreases size(x1) + size(x2), 3nat, parents.len(),
{
    if parents.len() > 0 {
        law_match_statement_symmetric(x1, x2, parents[0]);
        lemma_match_each_symmetric(x1, x2, parents.subrange(1, parents.len() as int));
    }
}

/// A statement with no float anywhere in it.
pub open spec fn floats_free(s: SStatement) -> bool
    decreases s, 0nat,
{
    match s {
        SStatement::Float(_) => false,
        SStatement::Binary(_, a, b) => floats_free(*a) && floats_free(*b),
        SStatement::Unary(_, a) => floats_free(*a),
        SStatement::Sequence(items) => seq_floats_free(items),
        SStatement::List(items, _) => seq_floats_free(items),
        SStatement::UList(items, _) => seq_floats_free(items),
        SStatement::Object(items, _) => seq_floats_free(items),
        _ => true,
    }
}

/// A run of statements with no float anywhere in them.
pub open spec fn seq_floats_free(items: Seq<SStatement>) -> bool
    decreases items, 1nat,
{
    if items.len() == 0 {
        true
    } else {
        floats_free(items[0]) && seq_floats_free(items.subrange(1, items.len() as int))
    }
}

/// Statement equality is identity wherever no float is involved: two statements are
/// equal exactly when they are the same term (atoms with the same name, integers with
/// the same value, the same operator on the same operands, the same items in order).
/// Only floats compare otherwise, as `f32` does (NaN, and the two zeros).
pub proof fn law_equals_is_identity_without_floats(a: SStatement, b: SStatement)
    requires
        floats_free(a),
    ensures
        s_eq(a, b) <==> a == b,
    decreases a, 0nat,
{
    match (a, b) {
        (SStatement::Binary(k1, x1, y1), SStatement::Binary(k2, x2, y2)) => {
            law_equals_is_identity_without_floats(*x1, *x2);
            law_equals_is_identity_without_floats(*y1, *y2);
        },
        (SStatement::Unary(k1, x1), SStatement::Unary(k2, x2)) => {
            law_equals_is_identity_without_floats(*x1, *x2);
        },
        (SStatement::Sequence(i1), SStatement::Sequence(i2)) => {
            lemma_seq_eq_is_identity(i1, i2);
        },
        (SStatement::List(i1, p1), SStatement::List(i2, p2)) => {
            lemma_seq_eq_is_identity(i1, i2);
        },
        (SStatement::UList(i1, p1), SStatement::UList(i2, p2)) => {
            lemma_seq_eq_is_identity(i1, i2);
        },
        (SStatement::Object(i1, p1), SStatement::Object(i2, p2)) => {
            lemma_seq_eq_is_identity(i1, i2);
        },
        _ => {},
    }
}

/// Runs without floats are equal exactly when they are the same run.
proof fn lemma_seq_eq_is_identity(i1: Seq<SStatement>, i2: Seq<SStatement>)
    requires
        seq_floats_free(i1),
    ensures
        seq_eq(i1, i2) <==> i1 == i2,
    decreases i1, 1nat,
{
    if i1.len() == i2.len() {
        if i1.len() == 0 {
            assert(i1 =~= i2);
        } else {
            let t1 = i1.subrange(1, i1.len() as int);
            let t2 = i2.subrange(1, i2.len() as int);
            law_equals_is_identity_without_floats(i1[0], i2[0]);
            lemma_seq_eq_is_identity(t1, t2);
            if i1[0] == i2[0] && t1 == t2 {
                assert forall|k: int| 0 <= k < i1.len() implies i1[k] == i2[k] by {
                    if k > 0 {
                        assert(t1[k - 1] == i2[k]);
                    }
                }
                assert(i1 =~= i2);
            }
        }
    }
}

/// Atoms, integers and floats match only each other's kind, and then exactly when
/// they are equal: one frame binding nothing where they are, no frame otherwise.
/// Atoms are equal when their names are, integers when their values are, floats
/// when `f32` comparison says so.
pub proof fn law_primitives_match_when_equal(a: SStatement, b: SStatement, f: Bindings)
    requires
        a is Atom || a is Integer || a is Float,
        b is Atom || b is Integer || b is Float,
    ensures
        match_statement(a, b, f) matches Some(fs) && fs.len() <= 1,
        match_statement(a, b, f)->0.len() == 1 ==> match_statement(a, b, f)->0[0] == Map::<Seq<char>, SStatement>::empty(),
        (a is Atom && b is Atom) ==> (match_statement(a, b, f)->0.len() == 1 <==> a->Atom_0 == b->Atom_0),
        (a is Integer && b is Integer) ==> (match_statement(a, b, f)->0.len() == 1 <==> a->Integer_0 == b->Integer_0),
        (a is Float && b is Float) ==> (match_statement(a, b, f)->0.len() == 1 <==> float_eq(a->Float_0, b->Float_0)),
        (a is Float && b is Float && a->Float_0 == b->Float_0 && !float_is_nan(a->Float_0)) ==> match_statement(a, b, f)->0.len() == 1,
        !((a is Atom && b is Atom) || (a is Integer && b is Integer) || (a is Float && b is Float)) ==> match_statement(a, b, f)->0.len() == 0,
        match_statement(a, b, f)->0.len() == 1 <==> s_eq(a, b),
{
}

/// Evaluation is arithmetic: a sum of two statements that evaluate to integers is
/// their sum where it fits in 32 bits, and undefined where it does not; negating an
/// integer gives its opposite, except for the least integer, which has none.
pub proof fn law_evaluate_is_arithmetic(a: SStatement, b: SStatement)
    ensures
        (eval_value(a) matches Some(SStatement::Integer(x)) && eval_value(b) matches Some(SStatement::Integer(y))) ==> {
            let x = eval_value(a)->0->Integer_0;
            let y = eval_value(b)->0->Integer_0;
            &&& (i32::MIN <= x + y <= i32::MAX) ==> (eval_value(SStatement::Binary(BinaryKind::Add, Box::new(a), Box::new(b))) is Some
                && eval_value(SStatement::Binary(BinaryKind::Add, Box::new(a), Box::new(b)))->0 is Integer
                && eval_value(SStatement::Binary(BinaryKind::Add, Box::new(a), Box::new(b)))->0->Integer_0 == x + y)
            &&& !(i32::MIN <= x + y <= i32::MAX) ==> eval_value(SStatement::Binary(BinaryKind::Add, Box::new(a), Box::new(b))) is None
        },
        eval_value(a) matches Some(SStatement::Integer(x)) ==> {
            let x = eval_value(a)->0->Integer_0;
            &&& x != i32::MIN ==> (eval_value(SStatement::Unary(UnaryKind::Minus, Box::new(a))) is Some
                && eval_value(SStatement::Unary(UnaryKind::Minus, Box::new(a)))->0 is Integer
                && eval_value(SStatement::Unary(UnaryKind::Minus, Box::new(a)))->0->Integer_0 == -x
                && x + eval_value(SStatement::Unary(UnaryKind::Minus, Box::new(a)))->0->Integer_0 == 0)
            &&& x == i32::MIN ==> eval_value(SStatement::Unary(UnaryKind::Minus, Box::new(a))) is None
        },
        forall|x: i32| #[trigger] eval_value(SStatement::Integer(x)) == Some(SStatement::Integer(x)),
        eval_value(a) matches Some(v) ==> floats_free(a) ==> v is Integer,
        eval_value(a) matches Some(SStatement::Float(x)) ==> {
            let x = eval_value(a)->0->Float_0;
            let m = eval_value(SStatement::Unary(UnaryKind::Minus, Box::new(a)));
            &&& m is Some && m->0 is Float
            &&& m->0->Float_0 != x
            &&& m->0->Float_0 & 0x7fff_ffffu32 == x & 0x7fff_ffffu32
        },
    decreases a,
{
    if let Some(SStatement::Float(x)) = eval_value(a) {
        assert((x ^ 0x8000_0000u32) != x) by (bit_vector);
        assert((x ^ 0x8000_0000u32) & 0x7fff_ffffu32 == x & 0x7fff_ffffu32) by (bit_vector);
    }
    if let Some(v) = eval_value(a) {
        if floats_free(a) {
            lemma_evaluate_without_floats(a);
        }
    }
}

/// A statement without floats evaluates, where it does, to an integer.
proof fn lemma_evaluate_without_floats(a: SStatement)
    requires
        floats_free(a),
    ensures
        eval_value(a) matches Some(v) ==> v is Integer,
    decreases a,
{
    match a {
        SStatement::Binary(BinaryKind::Add, x, y) => {
            lemma_evaluate_without_floats(*x);
            lemma_evaluate_without_floats(*y);
        },
        SStatement::Unary(UnaryKind::Minus, x) => {
            lemma_evaluate_without_floats(*x);
        },
        _ => {},
    }
}

/// A piped list `[H | T]` of two free variables matches a plain list of one item or
/// more in one frame: `H` bound to its first item, `T` to the plain list of the rest,
/// and every earlier binding kept.
pub proof fn law_head_tail_split(h: Seq<char>, t: Seq<char>, items: Seq<SStatement>, f: Bindings)
    requires
        h != seq!['_'],
        t != seq!['_'],
        h != t,
        !f.contains_key(h),
        !f.contains_key(t),
        items.len() >= 1,
    ensures
        match_list(seq![SStatement::Variable(h), SStatement::Variable(t)], true, items, false, f) == Some(
            seq![f.insert(h, items[0]).insert(t, SStatement::List(items.subrange(1, items.len() as int), false))],
        ),
{
    let i1 = seq![SStatement::Variable(h), SStatement::Variable(t)];
    let rest = SStatement::List(items.subrange(1, items.len() as int), false);
    assert(i1.subrange(0, 1) =~= seq![SStatement::Variable(h)]);
    assert(items.subrange(0, 1) =~= seq![items[0]]);
    lemma_lookup_ends_stop(h, items[0], f);
    let m1 = Map::<Seq<char>, SStatement>::empty().insert(h, items[0]).union_prefer_right(f);
    assert(match_statement(SStatement::Variable(h), items[0], f) == Some(seq![Map::<Seq<char>, SStatement>::empty().insert(h, items[0])]));
    assert(seq![f].subrange(1, 1) =~= Seq::<Bindings>::empty());
    assert(join_each(seq![Map::<Seq<char>, SStatement>::empty().insert(h, items[0])], f) =~= seq![m1]);
    assert(match_each(SStatement::Variable(h), items[0], seq![f]) == Some(seq![m1]));
    assert(match_chain(seq![SStatement::Variable(h)], seq![items[0]], seq![f]) == Some(seq![m1]));
    assert(match_sequence(i1.subrange(0, 1), items.subrange(0, 1), f) == Some(seq![m1]));
    assert(!m1.contains_key(t));
    lemma_lookup_ends_stop(t, rest, m1);
    let m2 = Map::<Seq<char>, SStatement>::empty().insert(t, rest).union_prefer_right(m1);
    assert(match_statement(SStatement::Variable(t), rest, m1) == Some(seq![Map::<Seq<char>, SStatement>::empty().insert(t, rest)]));
    assert(seq![m1].subrange(1, 1) =~= Seq::<Bindings>::empty());
    assert(join_each(seq![Map::<Seq<char>, SStatement>::empty().insert(t, rest)], m1) =~= seq![m2]);
    assert(i1[1] == SStatement::Variable(t));
    assert(match_each(SStatement::Variable(t), rest, seq![m1]) == Some(seq![m2]));
    assert(m2 =~= f.insert(h, items[0]).insert(t, rest));
}

/// Statement equality is symmetric.
pub proof fn law_equals_symmetric(a: SStatement, b: SStatement)
    ensures
        s_eq(a, b) == s_eq(b, a),
    decreases a, 0nat,
{
    match (a, b) {
        (SStatement::Binary(k1, x1, y1), SStatement::Binary(k2, x2, y2)) => {
            law_equals_symmetric(*x1, *x2);
            law_equals_symmetric(*y1, *y2);
        },
        (SStatement::Unary(k1, x1), SStatement::Unary(k2, x2)) => {
            law_equals_symmetric(*x1, *x2);
        },
        (SStatement::Sequence(i1), SStatement::Sequence(i2)) => {
            lemma_seq_eq_symmetric(i1, i2);
        },
        (SStatement::List(i1, p1), SStatement::List(i2, p2)) => {
            lemma_seq_eq_symmetric(i1, i2);
        },
        (SStatement::UList(i1, p1), SStatement::UList(i2, p2)) => {
            lemma_seq_eq_symmetric(i1, i2);
        },
        (SStatement::Object(i1, p1), SStatement::Object(i2, p2)) => {
            lemma_seq_eq_symmetric(i1, i2);
        },
        _ => {},
    }
}

proof fn lemma_seq_eq_symmetric(i1: Seq<SStatement>, i2: Seq<SStatement>)
    ensures
        seq_eq(i1, i2) == seq_eq(i2, i1),
    decreases i1, 1nat,
{
    if i1.len() == i2.len() && i1.len() > 0 {
        law_equals_symmetric(i1[0], i2[0]);
        lemma_seq_eq_symmetric(i1.subrange(1, i1.len() as int), i2.subrange(1, i2.len() as int));
    }
}

} // verus!
