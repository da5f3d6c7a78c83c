use vstd::prelude::*;
use super::model::{SStatement, BinaryKind, UnaryKind, eval_value, s_eq, seq_eq, size, seq_size, float_eq, float_bits_eq, lemma_seq_eq, lemma_seq_size_elem};
use super::collection::{Collection, Sequence, List, UList, Object};
use super::operator_binary::BinaryOperator;
use super::operator_unary::UnaryOperator;

verus! {

/// A single-precision float, held by its IEEE-754 bit pattern.
#[derive(Debug, Clone, Copy)]
pub struct Float(pub u32);

/// A 32-bit integer.
#[derive(Debug, Clone, Copy, PartialEq, Eq, Structural)]
pub struct Integer(pub i32);

/// A boolean.
#[derive(Debug, Clone, Copy, PartialEq, Eq, Structural)]
pub struct Boolean(pub bool);

/// A symbolic constant.
#[derive(Debug, Clone)]
pub struct Atom(pub String);

/// A logic variable, named; the name `_` is anonymous.
#[derive(Debug, Clone)]
pub struct Variable {
    pub name: String,
}

/// A term of the language.
#[derive(Debug)]
pub enum Statement {
    Float(Float),
    Integer(Integer),
    Boolean(Boolean),
    Atom(Atom),
    Variable(Variable),
    BinaryOperator(BinaryOperator),
    UnaryOperator(UnaryOperator),
    Sequence(Sequence),
    List(List),
    UList(UList),
    Object(Object),
    Empty,
}

/// The mathematical value of a statement.
pub open spec fn stmt_model(s: Statement) -> SStatement
    decreases s, 0nat,
{
    match s {
        Statement::Float(x) => SStatement::Float(x.0),
        Statement::Integer(x) => SStatement::Integer(x.0),
        Statement::Boolean(x) => SStatement::Boolean(x.0),
        Statement::Atom(x) => SStatement::Atom(x.0@),
        Statement::Variable(x) => SStatement::Variable(x.name@),
        Statement::BinaryOperator(b) => match b {
            BinaryOperator::Add(x, y) => SStatement::Binary(BinaryKind::Add, Box::new(stmt_model(*x)), Box::new(stmt_model(*y))),
            BinaryOperator::Subtract(x, y) => SStatement::Binary(BinaryKind::Subtract, Box::new(stmt_model(*x)), Box::new(stmt_model(*y))),
            BinaryOperator::Multiply(x, y) => SStatement::Binary(BinaryKind::Multiply, Box::new(stmt_model(*x)), Box::new(stmt_model(*y))),
            BinaryOperator::Divide(x, y) => SStatement::Binary(BinaryKind::Divide, Box::new(stmt_model(*x)), Box::new(stmt_model(*y))),
            BinaryOperator::Modulo(x, y) => SStatement::Binary(BinaryKind::Modulo, Box::new(stmt_model(*x)), Box::new(stmt_model(*y))),
            BinaryOperator::And(x, y) => SStatement::Binary(BinaryKind::And, Box::new(stmt_model(*x)), Box::new(stmt_model(*y))),
            BinaryOperator::Or(x, y) => SStatement::Binary(BinaryKind::Or, Box::new(stmt_model(*x)), Box::new(stmt_model(*y))),
            BinaryOperator::GreaterThan(x, y) => SStatement::Binary(BinaryKind::GreaterThan, Box::new(stmt_model(*x)), Box::new(stmt_model(*y))),
            BinaryOperator::GreaterThanEqual(x, y) => SStatement::Binary(BinaryKind::GreaterThanEqual, Box::new(stmt_model(*x)), Box::new(stmt_model(*y))),
            BinaryOperator::LessThan(x, y) => SStatement::Binary(BinaryKind::LessThan, Box::new(stmt_model(*x)), Box::new(stmt_model(*y))),
            BinaryOperator::LessThanEqual(x, y) => SStatement::Binary(BinaryKind::LessThanEqual, Box::new(stmt_model(*x)), Box::new(stmt_model(*y))),
            BinaryOperator::Equal(x, y) => SStatement::Binary(BinaryKind::Equal, Box::new(stmt_model(*x)), Box::new(stmt_model(*y))),
        },
        Statement::UnaryOperator(u) => match u {
            UnaryOperator::Minus(x) => SStatement::Unary(UnaryKind::Minus, Box::new(stmt_model(*x))),
            UnaryOperator::Not(x) => SStatement::Unary(UnaryKind::Not, Box::new(stmt_model(*x))),
        },
        Statement::Sequence(c) => SStatement::Sequence(seq_model(c.items@)),
        Statement::List(l) => SStatement::List(seq_model(l.items.items@), l.ispiped),
        Statement::UList(l) => SStatement::UList(seq_model(l.items.items@), l.ispiped),
        Statement::Object(o) => SStatement::Object(seq_model((o.0).0.items@), (o.0).1),
        Statement::Empty => SStatement::Empty,
    }
}

/// The values of a sequence of statements, in order.
pub open spec fn seq_model(v: Seq<Statement>) -> Seq<SStatement>
    decreases v, 1nat,
{
    if v.len() == 0 {
        Seq::empty()
    } else {
        seq![stmt_model(v[0])] + seq_model(v.subrange(1, v.len() as int))
    }
}

impl View for Statement {
    type V = SStatement;

    open spec fn view(&self) -> SStatement {
        stmt_model(*self)
    }
}

/// `seq_model` keeps the length and maps each element to its value.
pub broadcast proof fn lemma_seq_model(v: Seq<Statement>)
    ensures
        #[trigger] seq_model(v).len() == v.len(),
        forall|i: int| 0 <= i < v.len() ==> seq_model(v)[i] == #[trigger] v[i]@,
    decreases v.len(),
{
    if v.len() > 0 {
        let tail = v.subrange(1, v.len() as int);
        lemma_seq_model(tail);
        assert forall|i: int| 0 <= i < v.len() implies seq_model(v)[i] == #[trigger] v[i]@ by {
            if i > 0 {
                assert(tail[i - 1] == v[i]);
            }
        }
    }
}

impl Statement {
    /// A deep copy with the same value.
    pub(crate) fn copy(&self) -> (r: Statement)
        ensures
            r@ == self@,
        decreases self, 0nat,
    {
        match self {
            Statement::Float(x) => Statement::Float(*x),
            Statement::Integer(x) => Statement::Integer(*x),
            Statement::Boolean(x) => Statement::Boolean(*x),
            Statement::Atom(x) => Statement::Atom(Atom(x.0.clone())),
            Statement::Variable(x) => Statement::Variable(Variable { name: x.name.clone() }),
            Statement::BinaryOperator(b) => Statement::BinaryOperator(
                match b {
                BinaryOperator::Add(x, y) => BinaryOperator::Add(Box::new(x.copy()), Box::new(y.copy())),
                BinaryOperator::Subtract(x, y) => BinaryOperator::Subtract(Box::new(x.copy()), Box::new(y.copy())),
                BinaryOperator::Multiply(x, y) => BinaryOperator::Multiply(Box::new(x.copy()), Box::new(y.copy())),
                BinaryOperator::Divide(x, y) => BinaryOperator::Divide(Box::new(x.copy()), Box::new(y.copy())),
                BinaryOperator::Modulo(x, y) => BinaryOperator::Modulo(Box::new(x.copy()), Box::new(y.copy())),
                BinaryOperator::And(x, y) => BinaryOperator::And(Box::new(x.copy()), Box::new(y.copy())),
                BinaryOperator::Or(x, y) => BinaryOperator::Or(Box::new(x.copy()), Box::new(y.copy())),
                BinaryOperator::GreaterThan(x, y) => BinaryOperator::GreaterThan(Box::new(x.copy()), Box::new(y.copy())),
                BinaryOperator::GreaterThanEqual(x, y) => BinaryOperator::GreaterThanEqual(Box::new(x.copy()), Box::new(y.copy())),
                BinaryOperator::LessThan(x, y) => BinaryOperator::LessThan(Box::new(x.copy()), Box::new(y.copy())),
                BinaryOperator::LessThanEqual(x, y) => BinaryOperator::LessThanEqual(Box::new(x.copy()), Box::new(y.copy())),
                BinaryOperator::Equal(x, y) => BinaryOperator::Equal(Box::new(x.copy()), Box::new(y.copy())),
                },
            ),
            Statement::UnaryOperator(u) => Statement::UnaryOperator(
                match u {
                    UnaryOperator::Minus(x) => UnaryOperator::Minus(Box::new(x.copy())),
                    UnaryOperator::Not(x) => UnaryOperator::Not(Box::new(x.copy())),
                },
            ),
            Statement::Sequence(c) => Statement::Sequence(Collection { items: copy_vec(&c.items) }),
            Statement::List(l) => Statement::List(
                List { items: Collection { items: copy_vec(&l.items.items) }, ispiped: l.ispiped },
            ),
            Statement::UList(l) => Statement::UList(
                UList { items: Collection { items: copy_vec(&l.items.items) }, ispiped: l.ispiped },
            ),
            Statement::Object(o) => Statement::Object(
                Object((Collection { items: copy_vec(&o.0.0.items) }, o.0.1)),
            ),
            Statement::Empty => Statement::Empty,
        }
    }
}

/// A deep copy of a vector of statements, with the same values.
pub(crate) fn copy_vec(v: &Vec<Statement>) -> (r: Vec<Statement>)
    ensures
        seq_model(r@) == seq_model(v@),
    decreases v, 1nat,
{
    let mut r: Vec<Statement> = Vec::new();
    let mut i: usize = 0;
    while i < v.len()
        invariant
            i <= v.len(),
            r@.len() == i,
            forall|j: int| 0 <= j < i ==> #[trigger] r@[j]@ == v@[j]@,
        decreases v.len() - i,
    {
        r.push(v[i].copy());
        i = i + 1;
    }
    proof {
        lemma_seq_model(r@);
        lemma_seq_model(v@);
        assert forall|j: int| 0 <= j < v@.len() implies seq_model(r@)[j] == seq_model(v@)[j] by {
            assert(r@[j]@ == v@[j]@);
        }
        assert(seq_model(r@) =~= seq_model(v@));
    }
    r
}

/// The value of a slice of a sequence is the slice of its value.
pub proof fn lemma_seq_model_subrange(v: Seq<Statement>, a: int, b: int)
    requires
        0 <= a <= b <= v.len(),
    ensures
        seq_model(v.subrange(a, b)) == seq_model(v).subrange(a, b),
{
    lemma_seq_model(v);
    lemma_seq_model(v.subrange(a, b));
    assert forall|i: int| 0 <= i < b - a implies seq_model(v.subrange(a, b))[i] == seq_model(v).subrange(a, b)[i] by {
        assert(v.subrange(a, b)[i] == v[a + i]);
        assert(seq_model(v.subrange(a, b))[i] == v.subrange(a, b)[i]@);
        assert(seq_model(v)[a + i] == v[a + i]@);
    }
    assert(seq_model(v.subrange(a, b)) =~= seq_model(v).subrange(a, b));
}

/// Grounding a value against a statement.
pub trait Ground {
    fn ground(&self, other: &Statement) -> Option<&Self>;
}

/// Turns a value into the statement that holds it.
pub trait AsStatement {
    fn as_statement(self) -> Statement;
}

impl AsStatement for Variable {
    fn as_statement(self) -> (r: Statement)
        ensures
            r == Statement::Variable(self),
    {
        Statement::Variable(self)
    }
}

impl AsStatement for Sequence {
    fn as_statement(self) -> (r: Statement)
        ensures
            r == Statement::Sequence(self),
    {
        Statement::Sequence(self)
    }
}

impl AsStatement for List {
    fn as_statement(self) -> (r: Statement)
        ensures
            r == Statement::List(self),
    {
        Statement::List(self)
    }
}

impl AsStatement for UList {
    fn as_statement(self) -> (r: Statement)
        ensures
            r == Statement::UList(self),
    {
        Statement::UList(self)
    }
}

impl AsStatement for Object {
    fn as_statement(self) -> (r: Statement)
        ensures
            r == Statement::Object(self),
    {
        Statement::Object(self)
    }
}

impl AsStatement for Atom {
    fn as_statement(self) -> (r: Statement)
        ensures
            r == Statement::Atom(self),
    {
        Statement::Atom(self)
    }
}

impl AsStatement for Float {
    fn as_statement(self) -> (r: Statement)
        ensures
            r == Statement::Float(self),
    {
        Statement::Float(self)
    }
}

impl AsStatement for Integer {
    fn as_statement(self) -> (r: Statement)
        ensures
            r == Statement::Integer(self),
    {
        Statement::Integer(self)
    }
}

impl AsStatement for i32 {
    fn as_statement(self) -> (r: Statement)
        ensures
            r == Statement::Integer(Integer(self)),
    {
        Statement::Integer(Integer(self))
    }
}

impl List {
    /// A list of `items`, piped or not.
    pub fn new(items: Sequence, ispiped: bool) -> (r: Self)
        ensures
            r.items == items,
            r.ispiped == ispiped,
    {
        List { items, ispiped }
    }

    /// A list of the items of `head`, followed, where there is one, by `tail`: with a
    /// tail the list is piped and the tail is its last item, as in `[a, b | t]`.
    pub fn from_head_and_tail(head: Sequence, tail: Option<Statement>) -> (r: Self)
        ensures
            r.items.items@ == (match tail {
                Some(t) => head.items@.push(t),
                None => head.items@,
            }),
            r.ispiped == tail is Some,
    {
        let mut items = head;
        match tail {
            Some(t) => {
                items.items.push(t);
                List { items, ispiped: true }
            },
            None => List { items, ispiped: false },
        }
    }

    /// The number of items, the tail of a piped list included.
    pub fn len(&self) -> (r: usize)
        ensures
            r == self.items.items@.len(),
    {
        self.items.items.len()
    }
}

impl UList {
    /// An unordered list of `items`, piped or not.
    pub fn new(items: Sequence, ispiped: bool) -> (r: Self)
        ensures
            r.items == items,
            r.ispiped == ispiped,
    {
        UList { items, ispiped }
    }

    /// The number of items, the rest of a piped list included.
    pub fn len(&self) -> (r: usize)
        ensures
            r == self.items.items@.len(),
    {
        self.items.items.len()
    }
}

impl Variable {
    /// Whether this is the anonymous variable `_`, which matches anything and binds nothing.
    pub fn is_anonymous(&self) -> (r: bool)
        ensures
            r == (self.name@ == seq!['_']),
    {
        let underscore = "_".to_owned();
        proof {
            reveal_strlit("_");
            assert("_"@ =~= seq!['_']);
        }
        self.name == underscore
    }
}

impl Statement {
    /// Whether two statements are equal: structurally, with floats compared as `f32`.
    pub fn equals(&self, other: &Statement) -> (r: bool)
        ensures
            r == s_eq(self@, other@),
        decreases size(self@), 0nat,
    {
        match (self, other) {
            (Statement::Float(x), Statement::Float(y)) => float_bits_eq(x.0, y.0),
            (Statement::Integer(x), Statement::Integer(y)) => x.0 == y.0,
            (Statement::Boolean(x), Statement::Boolean(y)) => x.0 == y.0,
            (Statement::Atom(x), Statement::Atom(y)) => x.0 == y.0,
            (Statement::Variable(x), Statement::Variable(y)) => x.name == y.name,
            (Statement::BinaryOperator(b1), Statement::BinaryOperator(b2)) => {
                let (k1, x1, y1) = b1.parts();
                let (k2, x2, y2) = b2.parts();
                k1 == k2 && x1.equals(x2) && y1.equals(y2)
            },
            (Statement::UnaryOperator(u1), Statement::UnaryOperator(u2)) => {
                let (k1, x1) = u1.parts();
                let (k2, x2) = u2.parts();
                k1 == k2 && x1.equals(x2)
            },
            (Statement::Sequence(c1), Statement::Sequence(c2)) => seq_equals(
                c1.items.as_slice(),
                c2.items.as_slice(),
            ),
            (Statement::List(l1), Statement::List(l2)) => seq_equals(
                l1.items.items.as_slice(),
                l2.items.items.as_slice(),
            ) && l1.ispiped == l2.ispiped,
            (Statement::UList(l1), Statement::UList(l2)) => seq_equals(
                l1.items.items.as_slice(),
                l2.items.items.as_slice(),
            ) && l1.ispiped == l2.ispiped,
            (Statement::Object(o1), Statement::Object(o2)) => seq_equals(
                o1.0.0.items.as_slice(),
                o2.0.0.items.as_slice(),
            ) && o1.0.1 == o2.0.1,
            (Statement::Empty, Statement::Empty) => true,
            _ => false,
        }
    }
}

/// Whether two runs of statements are equal element by element.
pub(crate) fn seq_equals(a: &[Statement], b: &[Statement]) -> (r: bool)
    ensures
        r == seq_eq(seq_model(a@), seq_model(b@)),
    decreases seq_size(seq_model(a@)), 1nat,
{
    proof {
        lemma_seq_model(a@);
        lemma_seq_model(b@);
        lemma_seq_eq(seq_model(a@), seq_model(b@));
    }
    if a.len() != b.len() {
        return false;
    }
    let mut i: usize = 0;
    while i < a.len()
        invariant
            i <= a@.len(),
            a@.len() == b@.len(),
            seq_model(a@).len() == a@.len(),
            seq_model(b@).len() == b@.len(),
            forall|j: int| 0 <= j < a@.len() ==> seq_model(a@)[j] == #[trigger] a@[j]@,
            forall|j: int| 0 <= j < b@.len() ==> seq_model(b@)[j] == #[trigger] b@[j]@,
            forall|j: int| 0 <= j < i ==> s_eq(#[trigger] seq_model(a@)[j], seq_model(b@)[j]),
            seq_eq(seq_model(a@), seq_model(b@)) <==> (forall|j: int| 0 <= j < a@.len() ==> s_eq(#[trigger] seq_model(a@)[j], seq_model(b@)[j])),
        decreases a@.len() - i,
    {
        proof {
            lemma_seq_size_elem(seq_model(a@), i as int);
        }
        if !a[i].equals(&b[i]) {
            return false;
        }
        i = i + 1;
    }
    true
}

impl Statement {
    /// Evaluates an arithmetic statement.
    pub fn evaluate(&self) -> (r: Statement)
        requires
            eval_value(self@) is Some,
        ensures
            r@ == eval_value(self@).unwrap(),
        decreases size(self@), 1nat,
    {
        match self {
            Statement::Float(x) => Statement::Float(*x),
            Statement::Integer(x) => Statement::Integer(*x),
            Statement::BinaryOperator(x) => x.evaluate(),
            Statement::UnaryOperator(x) => x.evaluate(),
            _ => {
                proof {
                    assert(eval_value(self@) is None);
                }
                unreached()
            },
        }
    }
}

impl Statement {
    /// Whether the statement can be evaluated, so that `evaluate` may be called on it:
    /// a number, a sum of two integers that fits in 32 bits, or a negation of a number
    /// other than the least integer.
    pub fn can_evaluate(&self) -> (r: bool)
        ensures
            r == eval_value(self@) is Some,
        decreases size(self@),
    {
        match self {
            Statement::Float(_) => true,
            Statement::Integer(_) => true,
            Statement::BinaryOperator(BinaryOperator::Add(x, y)) => {
                if !x.can_evaluate() || !y.can_evaluate() {
                    return false;
                }
                match (x.evaluate(), y.evaluate()) {
                    (Statement::Integer(a), Statement::Integer(b)) => {
                        let sum: i64 = a.0 as i64 + b.0 as i64;
                        -2147483648i64 <= sum && sum <= 2147483647i64
                    },
                    _ => false,
                }
            },
            Statement::UnaryOperator(UnaryOperator::Minus(x)) => {
                if !x.can_evaluate() {
                    return false;
                }
                match x.evaluate() {
                    Statement::Integer(a) => a.0 != i32::MIN,
                    Statement::Float(_) => true,
                    Statement::Boolean(_) => true,
                    _ => false,
                }
            },
            _ => false,
        }
    }
}

impl From<UList> for List {
    fn from(item: UList) -> (r: List) {
        List { items: item.items, ispiped: item.ispiped }
    }
}

impl vstd::std_specs::convert::FromSpecImpl<UList> for List {
    open spec fn obeys_from_spec() -> bool {
        true
    }

    open spec fn from_spec(item: UList) -> List {
        List { items: item.items, ispiped: item.ispiped }
    }
}

impl From<List> for UList {
    fn from(item: List) -> (r: UList) {
        UList { items: item.items, ispiped: item.ispiped }
    }
}

impl vstd::std_specs::convert::FromSpecImpl<List> for UList {
    open spec fn obeys_from_spec() -> bool {
        true
    }

    open spec fn from_spec(item: List) -> UList {
        UList { items: item.items, ispiped: item.ispiped }
    }
}

/// Turning a list into an unordered list and back gives the same list, and the
/// other way round.
pub proof fn law_list_ulist_round_trip(l: List, u: UList)
    ensures
        <List as vstd::std_specs::convert::FromSpec<UList>>::from_spec(
            <UList as vstd::std_specs::convert::FromSpec<List>>::from_spec(l),
        ) == l,
        <UList as vstd::std_specs::convert::FromSpec<List>>::from_spec(
            <List as vstd::std_specs::convert::FromSpec<UList>>::from_spec(u),
        ) == u,
{
}

/// Floats compare as `f32` does: NaN equals nothing and the two zeros are equal.
impl PartialEq for Float {
    fn eq(&self, other: &Float) -> (r: bool) {
        float_bits_eq(self.0, other.0)
    }
}

impl vstd::std_specs::cmp::PartialEqSpecImpl for Float {
    open spec fn obeys_eq_spec() -> bool {
        true
    }

    open spec fn eq_spec(&self, other: &Float) -> bool {
        float_eq(self.0, other.0)
    }
}

/// Atoms are equal when their names are.
impl PartialEq for Atom {
    fn eq(&self, other: &Atom) -> (r: bool) {
        self.0 == other.0
    }
}

impl vstd::std_specs::cmp::PartialEqSpecImpl for Atom {
    open spec fn obeys_eq_spec() -> bool {
        true
    }

    open spec fn eq_spec(&self, other: &Atom) -> bool {
        self.0@ == other.0@
    }
}

/// Variables are equal when their names are.
impl PartialEq for Variable {
    fn eq(&self, other: &Variable) -> (r: bool) {
        self.name == other.name
    }
}

impl vstd::std_specs::cmp::PartialEqSpecImpl for Variable {
    open spec fn obeys_eq_spec() -> bool {
        true
    }

    open spec fn eq_spec(&self, other: &Variable) -> bool {
        self.name@ == other.name@
    }
}

impl Default for Variable {
    fn default() -> (r: Variable)
        ensures
            r.name@ == Seq::<char>::empty(),
    {
        Variable { name: String::new() }
    }
}

impl Default for List {
    fn default() -> (r: List)
        ensures
            r.items.items@ == Seq::<Statement>::empty(),
            !r.ispiped,
    {
        List { items: Collection::default(), ispiped: false }
    }
}

impl Default for UList {
    fn default() -> (r: UList)
        ensures
            r.items.items@ == Seq::<Statement>::empty(),
            !r.ispiped,
    {
        UList { items: Collection::default(), ispiped: false }
    }
}

impl Default for Atom {
    fn default() -> (r: Atom)
        ensures
            r.0@ == Seq::<char>::empty(),
    {
        Atom(String::new())
    }
}

impl PartialEq for Statement {
    fn eq(&self, other: &Statement) -> (r: bool) {
        self.equals(other)
    }
}

impl vstd::std_specs::cmp::PartialEqSpecImpl for Statement {
    open spec fn obeys_eq_spec() -> bool {
        true
    }

    open spec fn eq_spec(&self, other: &Statement) -> bool {
        s_eq(self@, other@)
    }
}

impl Clone for Statement {
    fn clone(&self) -> (r: Self)
        ensures
            r@ == self@,
    {
        self.copy()
    }
}

} // verus!
