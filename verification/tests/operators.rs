use teleora::statement::add::Add;
use teleora::statement::model::float_bits_eq;
use teleora::statement::operators::Negate;
use teleora::statement::statement::AsStatement;
use teleora::statement::{Atom, BinaryOperator, Boolean, Collection, Float, Integer, List, Object, Statement, UList, UnaryOperator, Variable};

fn num(x: i32) -> Statement {
    Statement::Integer(Integer(x))
}

#[test]
fn adds_integers() {
    let s = Statement::BinaryOperator(BinaryOperator::Add(Box::new(num(2)), Box::new(num(3))));
    assert!(s.evaluate() == num(5));
    assert_eq!(Integer(2).add(&Integer(-7)), Integer(-5));
}

#[test]
fn evaluates_nested_operations() {
    let inner = Statement::UnaryOperator(UnaryOperator::Minus(Box::new(num(4))));
    let s = Statement::BinaryOperator(BinaryOperator::Add(Box::new(inner), Box::new(num(10))));
    assert!(s.evaluate() == num(6));
}

#[test]
fn numbers_evaluate_to_themselves() {
    assert!(num(8).evaluate() == num(8));
    let f = Statement::Float(Float(2.5f32.to_bits()));
    assert!(f.evaluate() == f);
}

#[test]
fn negation_of_a_float_flips_its_sign() {
    let s = Statement::UnaryOperator(UnaryOperator::Minus(Box::new(Statement::Float(Float(1.5f32.to_bits())))));
    assert!(s.evaluate() == Statement::Float(Float((-1.5f32).to_bits())));
    assert_eq!(Float(0.0f32.to_bits()).negate().0, (-0.0f32).to_bits());
}

#[test]
fn negating_twice_gives_back_the_value() {
    assert_eq!(Integer(5).negate().negate(), Integer(5));
    assert_eq!(Boolean(true).negate(), Boolean(false));
    assert_eq!(Boolean(true).negate().negate(), Boolean(true));
    let f = Float(3.25f32.to_bits());
    assert_eq!(f.negate().negate().0, f.0);
}

#[test]
fn float_equality_follows_f32() {
    for (a, b) in [(1.0f32, 1.0f32), (0.0, -0.0), (f32::NAN, f32::NAN), (1.0, 2.0), (f32::INFINITY, f32::INFINITY)] {
        assert_eq!(float_bits_eq(a.to_bits(), b.to_bits()), a == b);
    }
}

#[test]
fn equality_is_structural() {
    let a = Statement::List(List::new(Collection::new(vec![num(1), Statement::Atom(Atom("x".to_string()))]), false));
    let b = a.clone();
    assert!(a == b);
    assert!(b == a);
    let c = Statement::List(List::new(Collection::new(vec![num(1), Statement::Atom(Atom("x".to_string()))]), true));
    assert!(a != c);
    assert!(c != a);
    let n = Statement::Float(Float(f32::NAN.to_bits()));
    assert!(n != n.clone());
    assert!(Statement::Empty == Statement::Empty);
}

#[test]
fn list_and_ulist_convert_both_ways() {
    let l = List::new(Collection::new(vec![num(1)]), true);
    let u: UList = UList::from(l.clone());
    assert!(u.ispiped);
    assert_eq!(u.len(), 1);
    let back: List = List::from(u);
    assert!(Statement::List(back) == Statement::List(l));
}

#[test]
fn values_become_statements() {
    assert!(3i32.as_statement() == num(3));
    assert!(Integer(4).as_statement() == num(4));
    assert!(Atom("a".to_string()).as_statement() == Statement::Atom(Atom("a".to_string())));
    let v = Variable { name: "X".to_string() };
    assert!(v.clone().as_statement() == Statement::Variable(v));
    let o = Object((Collection::new(vec![]), false));
    assert!(o.clone().as_statement() == Statement::Object(o));
}

#[test]
fn anonymous_variable() {
    assert!(Variable { name: "_".to_string() }.is_anonymous());
    assert!(!Variable { name: "X".to_string() }.is_anonymous());
    assert!(!Variable { name: "__".to_string() }.is_anonymous());
}

#[test]
fn collections_split_and_count() {
    let s = Collection::new(vec![num(1), num(2), num(3)]);
    assert_eq!(s.len(), 3);
    let (a, b) = s.split_at(1);
    assert_eq!(a.len(), 1);
    assert_eq!(b.len(), 2);
    let owned = b.to_vec();
    assert!(Statement::Sequence(owned) == Statement::Sequence(Collection::new(vec![num(2), num(3)])));
    let items: Vec<&Statement> = s.iter().collect();
    assert_eq!(items.len(), 3);
    let d: Collection<Vec<Statement>> = Collection::default();
    assert_eq!(d.len(), 0);
}

#[test]
fn statements_can_be_tested_before_evaluation() {
    let add = |a: Statement, b: Statement| Statement::BinaryOperator(BinaryOperator::Add(Box::new(a), Box::new(b)));
    let minus = |a: Statement| Statement::UnaryOperator(UnaryOperator::Minus(Box::new(a)));
    let float = Statement::Float(Float(1.5f32.to_bits()));
    assert!(num(3).can_evaluate());
    assert!(float.can_evaluate());
    assert!(add(num(2), minus(num(3))).can_evaluate());
    assert!(!add(num(i32::MAX), num(1)).can_evaluate());
    assert!(!add(num(1), float).can_evaluate());
    assert!(!minus(num(i32::MIN)).can_evaluate());
    assert!(minus(Statement::Float(Float(1.5f32.to_bits()))).can_evaluate());
    assert!(!Statement::Atom(Atom("a".to_string())).can_evaluate());
    assert!(!Statement::BinaryOperator(BinaryOperator::Subtract(Box::new(num(1)), Box::new(num(2)))).can_evaluate());
}

#[test]
fn values_compare_as_values() {
    assert!(Float(1.5f32.to_bits()) == Float(1.5f32.to_bits()));
    assert!(Float(0.0f32.to_bits()) == Float((-0.0f32).to_bits()));
    assert!(Float(f32::NAN.to_bits()) != Float(f32::NAN.to_bits()));
    assert!(Atom("a".to_string()) == Atom("a".to_string()));
    assert!(Atom("a".to_string()) != Atom("b".to_string()));
    assert!(Variable { name: "X".to_string() } == Variable { name: "X".to_string() });
    assert!(Variable { name: "X".to_string() } != Variable { name: "Y".to_string() });
    let minus = |s: Statement| UnaryOperator::Minus(Box::new(s));
    assert!(minus(num(1)) == minus(num(1)));
    assert!(minus(num(1)) != minus(num(2)));
    assert!(minus(num(1)) != UnaryOperator::Not(Box::new(num(1))));
}

#[test]
fn collections_compare_item_by_item() {
    let a = Collection::new(vec![num(1), num(2)]);
    let b = Collection::new(vec![num(1), num(2)]);
    let c = Collection::new(vec![num(1)]);
    assert!(a == b);
    assert!(a != c);
    assert!(a.as_ref() == b.as_ref());
    assert!(List::new(a.clone(), true) == List::new(b.clone(), true));
    assert!(List::new(a.clone(), true) != List::new(b.clone(), false));
    assert!(UList::new(a.clone(), false) == UList::new(b.clone(), false));
    assert!(UList::new(a.clone(), false) != UList::new(c.clone(), false));
    assert!(Object((a.clone(), false)) == Object((b.clone(), false)));
    assert!(Object((a, false)) != Object((c, false)));
}

#[test]
fn defaults_are_empty() {
    assert_eq!(Variable::default().name, "");
    let l = List::default();
    assert_eq!(l.len(), 0);
    assert!(!l.ispiped);
    let u = UList::default();
    assert_eq!(u.len(), 0);
    assert!(!u.ispiped);
}
