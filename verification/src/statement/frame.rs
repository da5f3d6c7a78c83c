use vstd::prelude::*;
use super::model::{SStatement, Bindings, law_match_each_flat_maps, lookup_ends, lookup_ends_within, lookup_stops, next_in_chain, lemma_lookup_ends_step, lemma_lookup_ends_stop, lemma_lookup_cycle, match_primitive, match_variable, match_statement, match_list, match_sequence, match_chain, match_each, join_each, size, seq_size, float_bits_eq, lemma_seq_size_parts, lemma_seq_size_elem, lemma_size_positive};
use super::statement::{Statement, Variable, AsStatement, seq_model, lemma_seq_model, lemma_seq_model_subrange};
use super::collection::{List, UList};
use super::collection::Collection;

verus! {

/// The bindings of variables made while matching: variable name to value.
///
/// The bindings are held as a list of (name, value) entries in which no name occurs
/// twice, rather than in a `HashMap<String, Statement>`: vstd specifies `HashMap`
/// only for keys that obey its key model (the integer types, `bool` and boxes of
/// them), not for `String`, so nothing could be proved of a map keyed by names.
/// Only the bindings are observable; the order of the entries is not.
#[derive(Debug)]
pub struct Frame {
    map: Vec<(String, Statement)>,
}

/// No name occurs twice among the entries.
pub open spec fn keys_distinct(e: Seq<(String, Statement)>) -> bool {
    forall|i: int, j: int| 0 <= i < e.len() && 0 <= j < e.len() && i != j ==> e[i].0@ != e[j].0@
}

/// Some entry carries the name `k`.
pub open spec fn has_key(e: Seq<(String, Statement)>, k: Seq<char>) -> bool {
    exists|i: int| 0 <= i < e.len() && e[i].0@ == k
}

/// The map that a list of entries with distinct names stands for.
pub open spec fn entries_view(e: Seq<(String, Statement)>) -> Bindings {
    Map::new(
        |k: Seq<char>| has_key(e, k),
        |k: Seq<char>| e[choose|i: int| 0 <= i < e.len() && e[i].0@ == k].1@,
    )
}

/// The names of the entries, in order.
pub open spec fn entry_keys(e: Seq<(String, Statement)>) -> Seq<Seq<char>> {
    e.map_values(|p: (String, Statement)| p.0@)
}

/// An entry's value is what the map holds for its name.
proof fn lemma_view_at(e: Seq<(String, Statement)>, i: int)
    requires
        keys_distinct(e),
        0 <= i < e.len(),
    ensures
        entries_view(e).contains_key(e[i].0@),
        entries_view(e)[e[i].0@] == e[i].1@,
{
    let k = e[i].0@;
    assert(has_key(e, k));
    let j = choose|j: int| 0 <= j < e.len() && e[j].0@ == k;
    assert(j == i);
}

/// The map of distinct entries has one key per entry.
proof fn lemma_view_len(e: Seq<(String, Statement)>)
    requires
        keys_distinct(e),
    ensures
        entries_view(e).dom().finite(),
        entries_view(e).len() == e.len(),
{
    let ks = entry_keys(e);
    assert(ks.no_duplicates()) by {
        assert forall|i: int, j: int| 0 <= i < ks.len() && 0 <= j < ks.len() && i != j implies ks[i] != ks[j] by {
            assert(ks[i] == e[i].0@);
            assert(ks[j] == e[j].0@);
        }
    }
    assert(entries_view(e).dom() =~= ks.to_set()) by {
        assert forall|k: Seq<char>| entries_view(e).dom().contains(k) implies ks.to_set().contains(k) by {
            let i = choose|i: int| 0 <= i < e.len() && e[i].0@ == k;
            assert(ks[i] == k);
        }
        assert forall|k: Seq<char>| ks.to_set().contains(k) implies entries_view(e).dom().contains(k) by {
            let i = choose|i: int| 0 <= i < ks.len() && ks[i] == k;
            assert(e[i].0@ == k);
        }
    }
    ks.unique_seq_to_set();
}

impl View for Frame {
    type V = Bindings;

    closed spec fn view(&self) -> Bindings {
        entries_view(self.map@)
    }
}

impl Frame {
    /// The frame's entries carry distinct names.
    pub closed spec fn wf(&self) -> bool {
        keys_distinct(self.map@)
    }

    /// A frame with no bindings.
    pub fn new() -> (r: Frame)
        ensures
            r.wf(),
            r@ == Map::<Seq<char>, SStatement>::empty(),
    {
        let r = Frame { map: Vec::new() };
        assert(r@ =~= Map::<Seq<char>, SStatement>::empty());
        r
    }

    /// Position of the entry named `name`, if any.
    fn find(&self, name: &String) -> (r: Option<usize>)
        requires
            self.wf(),
        ensures
            match r {
                Some(i) => i < self.map@.len() && self.map@[i as int].0@ == name@,
                None => !has_key(self.map@, name@),
            },
    {
        let mut i: usize = 0;
        while i < self.map.len()
            invariant
                i <= self.map@.len(),
                forall|j: int| 0 <= j < i ==> self.map@[j].0@ != name@,
            decreases self.map@.len() - i,
        {
            if self.map[i].0 == *name {
                return Some(i);
            }
            i = i + 1;
        }
        None
    }

    /// Binds `key` to `value`, replacing any earlier binding of it.
    pub fn insert(&mut self, key: &Variable, value: Statement)
        requires
            old(self).wf(),
        ensures
            final(self).wf(),
            final(self)@ == old(self)@.insert(key.name@, value@),
    {
        let ghost old_map = self.map@;
        let k = key.name.clone();
        match self.find(&k) {
            Some(i) => {
                self.map.set(i, (k, value));
                proof {
                    lemma_view_replace(old_map, self.map@, i as int);
                }
            },
            None => {
                self.map.push((k, value));
                proof {
                    lemma_view_replace(old_map, self.map@, old_map.len() as int);
                }
            },
        }
    }

    /// The value bound to `key`, if any.
    pub fn get(&self, key: &Variable) -> (r: Option<&Statement>)
        requires
            self.wf(),
        ensures
            match r {
                Some(v) => self@.contains_key(key.name@) && v@ == self@[key.name@],
                None => !self@.contains_key(key.name@),
            },
    {
        match self.find(&key.name) {
            Some(i) => {
                proof {
                    lemma_view_at(self.map@, i as int);
                }
                Some(&self.map[i].1)
            },
            None => None,
        }
    }

    /// Unbinds `key`, handing back the value it was bound to, if any.
    pub fn remove(&mut self, key: &Variable) -> (r: Option<Statement>)
        requires
            old(self).wf(),
        ensures
            final(self).wf(),
            final(self)@ == old(self)@.remove(key.name@),
            match r {
                Some(v) => old(self)@.contains_key(key.name@) && v@ == old(self)@[key.name@],
                None => !old(self)@.contains_key(key.name@),
            },
    {
        let ghost old_map = self.map@;
        match self.find(&key.name) {
            Some(i) => {
                proof {
                    lemma_view_at(old_map, i as int);
                }
                let (_, v) = self.map.remove(i);
                proof {
                    lemma_view_remove(old_map, i as int);
                }
                Some(v)
            },
            None => {
                proof {
                    assert(entries_view(old_map).remove(key.name@) =~= entries_view(old_map));
                }
                None
            },
        }
    }

    /// Whether no variable is bound.
    pub fn is_empty(&self) -> (r: bool)
        requires
            self.wf(),
        ensures
            r == (self@ == Map::<Seq<char>, SStatement>::empty()),
    {
        if self.map.len() == 0 {
            assert(self@ =~= Map::<Seq<char>, SStatement>::empty());
            true
        } else {
            proof {
                lemma_view_at(self.map@, 0);
                assert(!Map::<Seq<char>, SStatement>::empty().contains_key(self.map@[0].0@));
            }
            false
        }
    }

    /// The number of bound variables.
    pub fn len(&self) -> (r: usize)
        requires
            self.wf(),
        ensures
            self@.dom().finite(),
            r == self@.len(),
    {
        proof {
            lemma_view_len(self.map@);
        }
        self.map.len()
    }

    /// Unbinds every variable.
    pub fn clear(&mut self)
        ensures
            final(self).wf(),
            final(self)@ == Map::<Seq<char>, SStatement>::empty(),
    {
        self.map.clear();
        assert(self@ =~= Map::<Seq<char>, SStatement>::empty());
    }

    /// Adds every binding of `other`, which wins where both bind a variable.
    pub fn join(&mut self, other: &Frame)
        requires
            old(self).wf(),
            other.wf(),
        ensures
            final(self).wf(),
            final(self)@ == old(self)@.union_prefer_right(other@),
    {
        let ghost start = self@;
        let ghost oe = other.map@;
        let mut j: usize = 0;
        assert(entries_view(oe.subrange(0, 0)) =~= Map::<Seq<char>, SStatement>::empty());
        assert(start.union_prefer_right(Map::<Seq<char>, SStatement>::empty()) =~= start);
        while j < other.map.len()
            invariant
                j <= oe.len(),
                oe == other.map@,
                keys_distinct(oe),
                self.wf(),
                self@ == start.union_prefer_right(entries_view(oe.subrange(0, j as int))),
            decreases oe.len() - j,
        {
            let ghost before = self@;
            let name = Variable { name: other.map[j].0.clone() };
            let value = other.map[j].1.copy();
            self.insert(&name, value);
            proof {
                let pre = oe.subrange(0, j as int);
                let post = oe.subrange(0, j as int + 1);
                assert(!has_key(pre, oe[j as int].0@)) by {
                    if has_key(pre, oe[j as int].0@) {
                        let a = choose|a: int| 0 <= a < pre.len() && pre[a].0@ == oe[j as int].0@;
                        assert(oe[a].0@ == oe[j as int].0@);
                    }
                }
                assert forall|a: int, b: int| 0 <= a < pre.len() && 0 <= b < pre.len() && a != b implies pre[a].0@ != pre[b].0@ by {
                    assert(pre[a] == oe[a] && pre[b] == oe[b]);
                }
                lemma_view_replace(pre, post, j as int);
                assert(self@ =~= start.union_prefer_right(entries_view(post)));
            }
            j = j + 1;
        }
        assert(oe.subrange(0, oe.len() as int) =~= oe);
    }
}

/// Dropping one entry removes its binding and keeps the names distinct.
proof fn lemma_view_remove(old: Seq<(String, Statement)>, i: int)
    requires
        keys_distinct(old),
        0 <= i < old.len(),
    ensures
        keys_distinct(old.remove(i)),
        entries_view(old.remove(i)) == entries_view(old).remove(old[i].0@),
{
    let e = old.remove(i);
    let k = old[i].0@;
    assert forall|a: int| 0 <= a < e.len() implies #[trigger] e[a] == (if a < i { old[a] } else { old[a + 1] }) by {}
    assert(keys_distinct(e)) by {
        assert forall|a: int, b: int| 0 <= a < e.len() && 0 <= b < e.len() && a != b implies e[a].0@ != e[b].0@ by {
            let oa = if a < i { a } else { a + 1 };
            let ob = if b < i { b } else { b + 1 };
            assert(e[a] == old[oa] && e[b] == old[ob]);
        }
    }
    let m1 = entries_view(e);
    let m2 = entries_view(old).remove(k);
    assert forall|kk: Seq<char>| m1.contains_key(kk) <==> m2.contains_key(kk) by {
        if has_key(e, kk) {
            let a = choose|a: int| 0 <= a < e.len() && e[a].0@ == kk;
            let oa = if a < i { a } else { a + 1 };
            assert(e[a] == old[oa]);
            assert(oa != i);
            assert(has_key(old, kk));
        }
        if has_key(old, kk) && kk != k {
            let b = choose|b: int| 0 <= b < old.len() && old[b].0@ == kk;
            assert(b != i);
            let a = if b < i { b } else { b - 1 };
            assert(e[a] == old[b]);
            assert(has_key(e, kk));
        }
    }
    assert forall|kk: Seq<char>| m1.contains_key(kk) implies m1[kk] == m2[kk] by {
        let a = choose|a: int| 0 <= a < e.len() && e[a].0@ == kk;
        let oa = if a < i { a } else { a + 1 };
        assert(e[a] == old[oa]);
        lemma_view_at(e, a);
        lemma_view_at(old, oa);
    }
    assert(m1.dom() =~= m2.dom());
    assert(m1 =~= m2);
}

/// Writing one entry, over an entry of the same name or after the others,
/// adds that binding to the map and keeps the names distinct.
proof fn lemma_view_replace(old: Seq<(String, Statement)>, e: Seq<(String, Statement)>, i: int)
    requires
        keys_distinct(old),
        0 <= i < e.len(),
        (e.len() == old.len() && old[i].0@ == e[i].0@) || (e.len() == old.len() + 1 && i == old.len()
            && !has_key(old, e[i].0@)),
        forall|j: int| 0 <= j < e.len() && j != i ==> j < old.len() && #[trigger] e[j] == old[j],
    ensures
        keys_distinct(e),
        entries_view(e) == entries_view(old).insert(e[i].0@, e[i].1@),
{
    let k = e[i].0@;
    assert(keys_distinct(e)) by {
        assert forall|a: int, b: int| 0 <= a < e.len() && 0 <= b < e.len() && a != b implies e[a].0@ != e[b].0@ by {
            if a != i && b != i {
                assert(e[a] == old[a] && e[b] == old[b]);
            } else if a == i {
                assert(e[b] == old[b]);
                if e.len() == old.len() + 1 {
                    assert(old[b].0@ != k);
                }
            } else {
                assert(e[a] == old[a]);
                if e.len() == old.len() + 1 {
                    assert(old[a].0@ != k);
                }
            }
        }
    }
    let m1 = entries_view(e);
    let m2 = entries_view(old).insert(k, e[i].1@);
    assert forall|kk: Seq<char>| m1.contains_key(kk) <==> m2.contains_key(kk) by {
        if kk == k {
            lemma_view_at(e, i);
        } else {
            if has_key(e, kk) {
                let j = choose|j: int| 0 <= j < e.len() && e[j].0@ == kk;
                assert(e[j] == old[j]);
                assert(has_key(old, kk));
            }
            if has_key(old, kk) {
                let j = choose|j: int| 0 <= j < old.len() && old[j].0@ == kk;
                assert(j != i);
                assert(e[j] == old[j]);
                assert(has_key(e, kk));
            }
        }
    }
    assert forall|kk: Seq<char>| m1.contains_key(kk) implies m1[kk] == m2[kk] by {
        if kk == k {
            lemma_view_at(e, i);
        } else {
            let j = choose|j: int| 0 <= j < e.len() && e[j].0@ == kk;
            assert(e[j] == old[j]);
            lemma_view_at(e, j);
            lemma_view_at(old, j);
        }
    }
    assert(m1.dom() =~= m2.dom());
    assert(m1 =~= m2);
}

/// An empty run of items.
pub fn empty<T>() -> (r: Vec<T>)
    ensures
        r@ == Seq::<T>::empty(),
{
    Vec::new()
}

/// A run holding the one item `value`.
pub fn singleton<T>(value: T) -> (r: Vec<T>)
    ensures
        r@ == seq![value],
{
    let mut v: Vec<T> = Vec::new();
    v.push(value);
    v
}

/// The bindings of each frame of a run, in order.
pub open spec fn frames_view(v: Seq<Frame>) -> Seq<Bindings> {
    v.map_values(|f: Frame| f@)
}

/// Every frame of the run is well formed.
pub open spec fn all_wf(v: Seq<Frame>) -> bool {
    forall|i: int| 0 <= i < v.len() ==> (#[trigger] v[i]).wf()
}

impl Frame {
    /// One empty frame where `matched` holds, none otherwise.
    fn evaluate_primitive(matched: bool) -> (r: Vec<Frame>)
        ensures
            all_wf(r@),
            frames_view(r@) == match_primitive(matched),
    {
        if matched {
            let r = singleton(Frame::new());
            assert(frames_view(r@) =~= match_primitive(matched));
            r
        } else {
            let r: Vec<Frame> = empty();
            assert(frames_view(r@) =~= match_primitive(matched));
            r
        }
    }

    /// Matches `variable` against `statement` under the bindings of `frame`.
    fn evaluate_variable(variable: &Variable, statement: &Statement, frame: &Frame) -> (r: Vec<Frame>)
        requires
            frame.wf(),
        ensures
            all_wf(r@),
            frames_view(r@) == match_variable(variable.name@, statement@, frame@),
    {
        if variable.is_anonymous() {
            let r = singleton(Frame::new());
            assert(frames_view(r@) =~= match_variable(variable.name@, statement@, frame@));
            return r;
        }
        match frame.get(variable) {
            Some(value) => Frame::evaluate_primitive(value.equals(statement)),
            None => {
                let mut new_frame = Frame::new();
                new_frame.insert(variable, statement.copy());
                let r = singleton(new_frame);
                assert(frames_view(r@) =~= match_variable(variable.name@, statement@, frame@));
                r
            },
        }
    }

    /// The frames in which `statement1` and `statement2` match under `frame`'s bindings.
    pub fn evaluate_statement(statement1: &Statement, statement2: &Statement, frame: &Frame) -> (r: Vec<Frame>)
        requires
            frame.wf(),
            match_statement(statement1@, statement2@, frame@) is Some,
        ensures
            all_wf(r@),
            frames_view(r@) == match_statement(statement1@, statement2@, frame@).unwrap(),
        decreases size(statement1@) + size(statement2@), 2nat, 0nat,
    {
        match (statement1, statement2) {
            (Statement::Atom(a1), Statement::Atom(a2)) => Frame::evaluate_primitive(a1.0 == a2.0),
            (Statement::Integer(i1), Statement::Integer(i2)) => Frame::evaluate_primitive(i1.0 == i2.0),
            (Statement::Float(f1), Statement::Float(f2)) => Frame::evaluate_primitive(float_bits_eq(f1.0, f2.0)),
            (Statement::Variable(var1), _) => Frame::evaluate_variable(var1, statement2, frame),
            (_, Statement::Variable(var2)) => Frame::evaluate_variable(var2, statement1, frame),
            (Statement::List(l1), Statement::List(l2)) => Frame::evaluate_list(l1, l2, frame),
            (Statement::UList(l1), Statement::UList(l2)) => Frame::evaluate_ulist(l1, l2, frame),
            _ => {
                let r: Vec<Frame> = empty();
                assert(frames_view(r@) =~= Seq::<Bindings>::empty());
                r
            },
        }
    }

    /// Matching unordered lists: no frames.
    pub fn evaluate_ulist(l1: &UList, l2: &UList, frame: &Frame) -> (r: Vec<Frame>)
        ensures
            r@ == Seq::<Frame>::empty(),
            frames_view(r@) == Seq::<Bindings>::empty(),
    {
        let r: Vec<Frame> = empty();
        assert(frames_view(r@) =~= Seq::<Bindings>::empty());
        r
    }

    /// The frames in which lists `l1` and `l2` match under `frame`'s bindings.
    pub fn evaluate_list(l1: &List, l2: &List, frame: &Frame) -> (r: Vec<Frame>)
        requires
            frame.wf(),
            match_list(seq_model(l1.items.items@), l1.ispiped, seq_model(l2.items.items@), l2.ispiped, frame@) is Some,
        ensures
            all_wf(r@),
            frames_view(r@) == match_list(
                seq_model(l1.items.items@),
                l1.ispiped,
                seq_model(l2.items.items@),
                l2.ispiped,
                frame@,
            ).unwrap(),
        decreases seq_size(seq_model(l1.items.items@)) + seq_size(seq_model(l2.items.items@)) + 2, 1nat, 0nat,
    {
        let ghost m1 = seq_model(l1.items.items@);
        let ghost m2 = seq_model(l2.items.items@);
        proof {
            lemma_seq_model(l1.items.items@);
            lemma_seq_model(l2.items.items@);
        }
        if (l1.ispiped && l2.ispiped) || (!l1.ispiped && !l2.ispiped) {
            Frame::evaluate_sequence(&l1.items.as_ref(), &l2.items.as_ref(), frame)
        } else if l1.ispiped {
            let piped_size = l1.len() - 1;
            if piped_size > l2.len() {
                let r: Vec<Frame> = empty();
                assert(frames_view(r@) =~= Seq::<Bindings>::empty());
                return r;
            }
            let l1items = l1.items.as_ref();
            let l2items = l2.items.as_ref();
            let (l1x, l1p) = l1items.split_at(piped_size);
            let (l2x, l2p) = l2items.split_at(piped_size);
            proof {
                let ps = piped_size as int;
                lemma_seq_model_subrange(l1.items.items@, 0, ps);
                lemma_seq_model_subrange(l2.items.items@, 0, ps);
                lemma_seq_model_subrange(l2.items.items@, ps, l2.items.items@.len() as int);
                lemma_seq_size_parts(m1, ps);
                lemma_seq_size_parts(m2, ps);
                lemma_seq_size_elem(m1, ps);
                assert(l1p.items@[0] == l1.items.items@[ps]);
            }
            let xiter = Frame::evaluate_sequence(&l1x, &l2x, frame);
            let l2plist = List::new(l2p.to_vec(), false).as_statement();
            FrameGenerator::new_singlular(&l1p.items[0], &l2plist, xiter)
        } else {
            let piped_size = l2.len() - 1;
            if piped_size > l1.len() {
                let r: Vec<Frame> = empty();
                assert(frames_view(r@) =~= Seq::<Bindings>::empty());
                return r;
            }
            let l1items = l1.items.as_ref();
            let l2items = l2.items.as_ref();
            let (l1x, l1p) = l1items.split_at(piped_size);
            let (l2x, l2p) = l2items.split_at(piped_size);
            proof {
                let ps = piped_size as int;
                lemma_seq_model_subrange(l1.items.items@, 0, ps);
                lemma_seq_model_subrange(l2.items.items@, 0, ps);
                lemma_seq_model_subrange(l1.items.items@, ps, l1.items.items@.len() as int);
                lemma_seq_size_parts(m1, ps);
                lemma_seq_size_parts(m2, ps);
                lemma_seq_size_elem(m2, ps);
                assert(l2p.items@[0] == l2.items.items@[ps]);
            }
            let xiter = Frame::evaluate_sequence(&l1x, &l2x, frame);
            let l1plist = List::new(l1p.to_vec(), false).as_statement();
            FrameGenerator::new_singlular(&l1plist, &l2p.items[0], xiter)
        }
    }

    /// The frames in which two runs match position by position under `frame`'s
    /// bindings; none where their lengths differ.
    pub fn evaluate_sequence(seq1: &Collection<&[Statement]>, seq2: &Collection<&[Statement]>, frame: &Frame) -> (r: Vec<Frame>)
        requires
            frame.wf(),
            match_sequence(seq_model(seq1.items@), seq_model(seq2.items@), frame@) is Some,
        ensures
            all_wf(r@),
            frames_view(r@) == match_sequence(seq_model(seq1.items@), seq_model(seq2.items@), frame@).unwrap(),
        decreases seq_size(seq_model(seq1.items@)) + seq_size(seq_model(seq2.items@)), 5nat, 0nat,
    {
        proof {
            lemma_seq_model(seq1.items@);
            lemma_seq_model(seq2.items@);
        }
        if seq1.len() != seq2.len() {
            let r: Vec<Frame> = empty();
            assert(frames_view(r@) =~= Seq::<Bindings>::empty());
            return r;
        }
        let parents = singleton(frame.clone());
        assert(frames_view(parents@) =~= seq![frame@]);
        FrameGenerator::new(seq1.items, seq2.items, parents)
    }
}

/// Grows frames statement by statement along two runs being matched.
pub struct FrameGenerator;

impl FrameGenerator {
    /// Matches `s1` against `s2` under each parent frame in turn; each frame found is
    /// extended by the bindings of its parent.
    pub fn new_singlular(s1: &Statement, s2: &Statement, parent_frames: Vec<Frame>) -> (r: Vec<Frame>)
        requires
            all_wf(parent_frames@),
            match_each(s1@, s2@, frames_view(parent_frames@)) is Some,
        ensures
            all_wf(r@),
            frames_view(r@) == match_each(s1@, s2@, frames_view(parent_frames@)).unwrap(),
        decreases size(s1@) + size(s2@), 3nat, 0nat,
    {
        let ghost pv = frames_view(parent_frames@);
        let ghost n = parent_frames@.len() as int;
        let mut result: Vec<Frame> = Vec::new();
        let mut i: usize = 0;
        assert(pv.subrange(0, n) =~= pv);
        assert(frames_view(result@) =~= Seq::<Bindings>::empty());
        while i < parent_frames.len()
            invariant
                i <= n,
                n == parent_frames@.len(),
                pv == frames_view(parent_frames@),
                all_wf(parent_frames@),
                all_wf(result@),
                match_each(s1@, s2@, pv.subrange(i as int, n)) is Some,
                match_each(s1@, s2@, pv) == Some(
                    frames_view(result@) + match_each(s1@, s2@, pv.subrange(i as int, n)).unwrap(),
                ),
            decreases n - i,
        {
            let ghost rest = pv.subrange(i as int, n);
            let ghost before = frames_view(result@);
            proof {
                assert(rest[0] == parent_frames@[i as int]@);
                assert(rest.subrange(1, rest.len() as int) =~= pv.subrange(i as int + 1, n));
            }
            let fs = Frame::evaluate_statement(s1, s2, &parent_frames[i]);
            let ghost fsv = frames_view(fs@);
            let mut j: usize = 0;
            while j < fs.len()
                invariant
                    j <= fs@.len(),
                    fsv == frames_view(fs@),
                    all_wf(fs@),
                    i < parent_frames@.len(),
                    all_wf(parent_frames@),
                    all_wf(result@),
                    frames_view(result@) == before + join_each(fsv.subrange(0, j as int), parent_frames@[i as int]@),
                decreases fs@.len() - j,
            {
                let mut g = fs[j].clone();
                g.join(&parent_frames[i]);
                let ghost prev = result@;
                result.push(g);
                proof {
                    assert(fsv.subrange(0, j as int + 1) =~= fsv.subrange(0, j as int).push(fsv[j as int]));
                    assert(frames_view(result@) =~= frames_view(prev).push(g@));
                    assert(join_each(fsv.subrange(0, j as int + 1), parent_frames@[i as int]@) =~= join_each(fsv.subrange(0, j as int), parent_frames@[i as int]@).push(fsv[j as int].union_prefer_right(parent_frames@[i as int]@)));
                    assert(frames_view(result@) =~= before + join_each(fsv.subrange(0, j as int + 1), parent_frames@[i as int]@));
                    assert forall|k: int| 0 <= k < result@.len() implies (#[trigger] result@[k]).wf() by {
                        if k < prev.len() {
                            assert(result@[k] == prev[k]);
                        }
                    }
                }
                j = j + 1;
            }
            proof {
                assert(fsv.subrange(0, fsv.len() as int) =~= fsv);
                assert(frames_view(result@) + match_each(s1@, s2@, pv.subrange(i as int + 1, n)).unwrap() =~= before + match_each(s1@, s2@, rest).unwrap());
            }
            i = i + 1;
        }
        proof {
            assert(pv.subrange(n, n) =~= Seq::<Bindings>::empty());
            assert(frames_view(result@) + Seq::<Bindings>::empty() =~= frames_view(result@));
        }
        result
    }

    /// Matches two runs of equal, nonzero length position by position, starting from
    /// `parent_frames`: the frames of each position grow from those of the one before.
    pub fn new(seq1: &[Statement], seq2: &[Statement], parent_frames: Vec<Frame>) -> (r: Vec<Frame>)
        requires
            all_wf(parent_frames@),
            match_chain(seq_model(seq1@), seq_model(seq2@), frames_view(parent_frames@)) is Some,
        ensures
            all_wf(r@),
            frames_view(r@) == match_chain(seq_model(seq1@), seq_model(seq2@), frames_view(parent_frames@)).unwrap(),
        decreases seq_size(seq_model(seq1@)) + seq_size(seq_model(seq2@)), 4nat, 0nat,
    {
        proof {
            lemma_seq_model(seq1@);
            lemma_seq_model(seq2@);
        }
        let (x1, s1) = seq1.split_at(1);
        let (x2, s2) = seq2.split_at(1);
        proof {
            lemma_seq_model_subrange(seq1@, 1, seq1@.len() as int);
            lemma_seq_model_subrange(seq2@, 1, seq2@.len() as int);
            assert(x1@[0] == seq1@[0]);
            assert(x2@[0] == seq2@[0]);
            lemma_size_positive(seq_model(seq1@)[0]);
            lemma_size_positive(seq_model(seq2@)[0]);
        }
        let current = FrameGenerator::new_singlular(&x1[0], &x2[0], parent_frames);
        if s1.len() > 0 {
            FrameGenerator::new(s1, s2, current)
        } else {
            current
        }
    }
}

impl Frame {
    /// Whether matching `statement1` against `statement2` under `frame`'s bindings is
    /// defined, so that `evaluate_statement` may be called on them.
    pub fn can_match_statements(statement1: &Statement, statement2: &Statement, frame: &Frame) -> (r: bool)
        requires
            frame.wf(),
        ensures
            r == match_statement(statement1@, statement2@, frame@) is Some,
        decreases size(statement1@) + size(statement2@), 2nat, 0nat,
    {
        match (statement1, statement2) {
            (Statement::Variable(v), _) => Frame::lookup_comes_to_an_end(v, statement2, frame),
            (_, Statement::Variable(v)) => Frame::lookup_comes_to_an_end(v, statement1, frame),
            (Statement::List(l1), Statement::List(l2)) => Frame::can_match_lists(l1, l2, frame),
            _ => true,
        }
    }

    /// Whether matching `variable` against `statement` under `frame`'s bindings comes
    /// to an end: following variables bound to variables, the lookup reaches `_`, a
    /// free variable, a value equal to `statement` or a value that is no variable,
    /// rather than going round a cycle of variables.
    pub fn lookup_comes_to_an_end(variable: &Variable, statement: &Statement, frame: &Frame) -> (r: bool)
        requires
            frame.wf(),
        ensures
            r == lookup_ends(variable.name@, statement@, frame@),
    {
        let ghost s = statement@;
        let ghost f = frame@;
        proof {
            lemma_view_len(frame.map@);
        }
        let mut current = Variable { name: variable.name.clone() };
        let mut visited: Vec<String> = Vec::new();
        let ghost mut names: Seq<Seq<char>> = Seq::empty();
        loop
            invariant
                frame.wf(),
                f == frame@,
                s == statement@,
                f.dom().finite(),
                f.len() == frame.map@.len(),
                names.len() == visited@.len(),
                forall|k: int| 0 <= k < names.len() ==> #[trigger] names[k] == visited@[k]@,
                names.no_duplicates(),
                names.len() <= frame.map@.len(),
                forall|k: int| 0 <= k < names.len() ==> f.contains_key(#[trigger] names[k]) && !lookup_stops(names[k], s, f),
                forall|k: int| 0 <= k < names.len() - 1 ==> next_in_chain(#[trigger] names[k], f) == names[k + 1],
                names.len() > 0 ==> next_in_chain(names.last(), f) == current.name@,
                lookup_ends(variable.name@, s, f) == lookup_ends(current.name@, s, f),
            decreases frame.map@.len() - names.len(),
        {
            if current.is_anonymous() {
                proof {
                    lemma_lookup_ends_stop(current.name@, s, f);
                }
                return true;
            }
            let found = frame.get(&current);
            let other_name = match found {
                None => {
                    proof {
                        lemma_lookup_ends_stop(current.name@, s, f);
                    }
                    return true;
                },
                Some(value) => {
                    if value.equals(statement) {
                        proof {
                            lemma_lookup_ends_stop(current.name@, s, f);
                        }
                        return true;
                    }
                    match value {
                        Statement::Variable(other) => other.name.clone(),
                        _ => {
                            proof {
                                lemma_lookup_ends_stop(current.name@, s, f);
                            }
                            return true;
                        },
                    }
                },
            };
            assert(!lookup_stops(current.name@, s, f));
            assert(next_in_chain(current.name@, f) == other_name@);
            let mut i: usize = 0;
            while i < visited.len()
                invariant
                    i <= visited@.len(),
                    names.len() == visited@.len(),
                    forall|k: int| 0 <= k < names.len() ==> #[trigger] names[k] == visited@[k]@,
                    forall|k: int| 0 <= k < i ==> names[k] != current.name@,
                    forall|k: int| 0 <= k < names.len() ==> f.contains_key(#[trigger] names[k]) && !lookup_stops(names[k], s, f),
                    forall|k: int| 0 <= k < names.len() - 1 ==> next_in_chain(#[trigger] names[k], f) == names[k + 1],
                    names.len() > 0 ==> next_in_chain(names.last(), f) == current.name@,
                    f == frame@,
                    s == statement@,
                    lookup_ends(variable.name@, s, f) == lookup_ends(current.name@, s, f),
                decreases visited@.len() - i,
            {
                if visited[i] == current.name {
                    proof {
                        let cycle = names.subrange(i as int, names.len() as int);
                        assert forall|k: int| 0 <= k < cycle.len() implies !lookup_stops(#[trigger] cycle[k], s, f) by {
                            assert(cycle[k] == names[i + k]);
                        }
                        assert forall|k: int| 0 <= k < cycle.len() - 1 implies next_in_chain(#[trigger] cycle[k], f) == cycle[k + 1] by {
                            assert(cycle[k] == names[i + k]);
                            assert(cycle[k + 1] == names[i + k + 1]);
                        }
                        assert(cycle.last() == names.last());
                        assert(cycle[0] == current.name@);
                        if lookup_ends(current.name@, s, f) {
                            let fuel = choose|fuel: nat| lookup_ends_within(current.name@, s, f, fuel);
                            lemma_lookup_cycle(cycle, s, f, fuel);
                            assert(!lookup_ends_within(cycle[0], s, f, fuel));
                        }
                    }
                    return false;
                }
                i = i + 1;
            }
            proof {
                lemma_lookup_ends_step(current.name@, s, f);
                let more = names.push(current.name@);
                assert(more.no_duplicates()) by {
                    assert forall|a: int, b: int| 0 <= a < more.len() && 0 <= b < more.len() && a != b implies more[a] != more[b] by {
                        if a < names.len() && b < names.len() {
                            assert(more[a] == names[a] && more[b] == names[b]);
                        } else if a < names.len() {
                            assert(more[a] == names[a]);
                        } else {
                            assert(more[b] == names[b]);
                        }
                    }
                }
                assert(more.to_set().subset_of(f.dom())) by {
                    assert forall|x: Seq<char>| more.to_set().contains(x) implies f.dom().contains(x) by {
                        let k = choose|k: int| 0 <= k < more.len() && more[k] == x;
                        if k < names.len() {
                            assert(more[k] == names[k]);
                        }
                    }
                }
                more.unique_seq_to_set();
                vstd::set_lib::lemma_len_subset(more.to_set(), f.dom());
            }
            let ghost old_names = names;
            visited.push(current.name.clone());
            proof {
                names = names.push(current.name@);
                assert forall|k: int| 0 <= k < names.len() - 1 implies next_in_chain(#[trigger] names[k], f) == names[k + 1] by {
                    if k < old_names.len() - 1 {
                        assert(names[k] == old_names[k] && names[k + 1] == old_names[k + 1]);
                    } else {
                        assert(names[k] == old_names.last());
                    }
                }
                assert forall|k: int| 0 <= k < names.len() implies f.contains_key(#[trigger] names[k]) && !lookup_stops(names[k], s, f) by {
                    if k < old_names.len() {
                        assert(names[k] == old_names[k]);
                    }
                }
                assert(names.no_duplicates()) by {
                    assert forall|a: int, b: int| 0 <= a < names.len() && 0 <= b < names.len() && a != b implies names[a] != names[b] by {
                        if a < old_names.len() && b < old_names.len() {
                            assert(names[a] == old_names[a] && names[b] == old_names[b]);
                        } else if a < old_names.len() {
                            assert(names[a] == old_names[a]);
                        } else {
                            assert(names[b] == old_names[b]);
                        }
                    }
                }
            }
            current = Variable { name: other_name };
        }
    }

    /// Whether matching lists `l1` and `l2` under `frame`'s bindings is defined, so
    /// that `evaluate_list` may be called on them.
    pub fn can_match_lists(l1: &List, l2: &List, frame: &Frame) -> (r: bool)
        requires
            frame.wf(),
        ensures
            r == match_list(seq_model(l1.items.items@), l1.ispiped, seq_model(l2.items.items@), l2.ispiped, frame@) is Some,
        decreases seq_size(seq_model(l1.items.items@)) + seq_size(seq_model(l2.items.items@)) + 2, 1nat, 0nat,
    {
        let ghost m1 = seq_model(l1.items.items@);
        let ghost m2 = seq_model(l2.items.items@);
        proof {
            lemma_seq_model(l1.items.items@);
            lemma_seq_model(l2.items.items@);
        }
        if (l1.ispiped && l2.ispiped) || (!l1.ispiped && !l2.ispiped) {
            Frame::can_match_sequences(&l1.items.as_ref(), &l2.items.as_ref(), frame)
        } else if l1.ispiped {
            if l1.len() == 0 {
                return false;
            }
            let piped_size = l1.len() - 1;
            if piped_size > l2.len() {
                return true;
            }
            let l1items = l1.items.as_ref();
            let l2items = l2.items.as_ref();
            let (l1x, l1p) = l1items.split_at(piped_size);
            let (l2x, l2p) = l2items.split_at(piped_size);
            proof {
                let ps = piped_size as int;
                lemma_seq_model_subrange(l1.items.items@, 0, ps);
                lemma_seq_model_subrange(l2.items.items@, 0, ps);
                lemma_seq_model_subrange(l2.items.items@, ps, l2.items.items@.len() as int);
                lemma_seq_size_parts(m1, ps);
                lemma_seq_size_parts(m2, ps);
                lemma_seq_size_elem(m1, ps);
                assert(l1p.items@[0] == l1.items.items@[ps]);
            }
            if !Frame::can_match_sequences(&l1x, &l2x, frame) {
                return false;
            }
            let xiter = Frame::evaluate_sequence(&l1x, &l2x, frame);
            let l2plist = List::new(l2p.to_vec(), false).as_statement();
            FrameGenerator::can_match_under_each(&l1p.items[0], &l2plist, &xiter)
        } else {
            if l2.len() == 0 {
                return false;
            }
            let piped_size = l2.len() - 1;
            if piped_size > l1.len() {
                return true;
            }
            let l1items = l1.items.as_ref();
            let l2items = l2.items.as_ref();
            let (l1x, l1p) = l1items.split_at(piped_size);
            let (l2x, l2p) = l2items.split_at(piped_size);
            proof {
                let ps = piped_size as int;
                lemma_seq_model_subrange(l1.items.items@, 0, ps);
                lemma_seq_model_subrange(l2.items.items@, 0, ps);
                lemma_seq_model_subrange(l1.items.items@, ps, l1.items.items@.len() as int);
                lemma_seq_size_parts(m1, ps);
                lemma_seq_size_parts(m2, ps);
                lemma_seq_size_elem(m2, ps);
                assert(l2p.items@[0] == l2.items.items@[ps]);
            }
            if !Frame::can_match_sequences(&l1x, &l2x, frame) {
                return false;
            }
            let xiter = Frame::evaluate_sequence(&l1x, &l2x, frame);
            let l1plist = List::new(l1p.to_vec(), false).as_statement();
            FrameGenerator::can_match_under_each(&l1plist, &l2p.items[0], &xiter)
        }
    }

    /// Whether matching two runs under `frame`'s bindings is defined, so that
    /// `evaluate_sequence` may be called on them.
    pub fn can_match_sequences(seq1: &Collection<&[Statement]>, seq2: &Collection<&[Statement]>, frame: &Frame) -> (r: bool)
        requires
            frame.wf(),
        ensures
            r == match_sequence(seq_model(seq1.items@), seq_model(seq2.items@), frame@) is Some,
        decreases seq_size(seq_model(seq1.items@)) + seq_size(seq_model(seq2.items@)), 5nat, 0nat,
    {
        proof {
            lemma_seq_model(seq1.items@);
            lemma_seq_model(seq2.items@);
        }
        if seq1.len() != seq2.len() {
            return true;
        }
        let parents = singleton(frame.clone());
        assert(frames_view(parents@) =~= seq![frame@]);
        FrameGenerator::can_match_runs(seq1.items, seq2.items, parents)
    }
}

impl FrameGenerator {
    /// Whether matching `s1` against `s2` under each of `parent_frames` is defined, so
    /// that `new_singlular` may be called on them: it is where matching under every
    /// parent is.
    pub fn can_match_under_each(s1: &Statement, s2: &Statement, parent_frames: &Vec<Frame>) -> (r: bool)
        requires
            all_wf(parent_frames@),
        ensures
            r == match_each(s1@, s2@, frames_view(parent_frames@)) is Some,
        decreases size(s1@) + size(s2@), 3nat, 0nat,
    {
        let ghost pv = frames_view(parent_frames@);
        proof {
            law_match_each_flat_maps(s1@, s2@, pv);
        }
        let mut i: usize = 0;
        while i < parent_frames.len()
            invariant
                i <= parent_frames@.len(),
                pv == frames_view(parent_frames@),
                all_wf(parent_frames@),
                forall|j: int| 0 <= j < i ==> (#[trigger] match_statement(s1@, s2@, pv[j])) is Some,
            decreases parent_frames@.len() - i,
        {
            proof {
                assert(pv[i as int] == parent_frames@[i as int]@);
            }
            if !Frame::can_match_statements(s1, s2, &parent_frames[i]) {
                proof {
                    law_match_each_flat_maps(s1@, s2@, pv);
                    assert(match_statement(s1@, s2@, pv[i as int]) is None);
                }
                return false;
            }
            i = i + 1;
        }
        true
    }

    /// Whether matching two runs position by position from `parent_frames` is defined,
    /// so that `new` may be called on them.
    pub fn can_match_runs(seq1: &[Statement], seq2: &[Statement], parent_frames: Vec<Frame>) -> (r: bool)
        requires
            all_wf(parent_frames@),
        ensures
            r == match_chain(seq_model(seq1@), seq_model(seq2@), frames_view(parent_frames@)) is Some,
        decreases seq_size(seq_model(seq1@)) + seq_size(seq_model(seq2@)), 4nat, 0nat,
    {
        proof {
            lemma_seq_model(seq1@);
            lemma_seq_model(seq2@);
        }
        if seq1.len() == 0 || seq1.len() != seq2.len() {
            return false;
        }
        let (x1, s1) = seq1.split_at(1);
        let (x2, s2) = seq2.split_at(1);
        proof {
            lemma_seq_model_subrange(seq1@, 1, seq1@.len() as int);
            lemma_seq_model_subrange(seq2@, 1, seq2@.len() as int);
            assert(x1@[0] == seq1@[0]);
            assert(x2@[0] == seq2@[0]);
            lemma_size_positive(seq_model(seq1@)[0]);
            lemma_size_positive(seq_model(seq2@)[0]);
        }
        if !FrameGenerator::can_match_under_each(&x1[0], &x2[0], &parent_frames) {
            return false;
        }
        if s1.len() == 0 {
            return true;
        }
        let current = FrameGenerator::new_singlular(&x1[0], &x2[0], parent_frames);
        FrameGenerator::can_match_runs(s1, s2, current)
    }
}

/// A frame read after binding a variable gives back the value bound; unbinding it
/// leaves it unbound; other variables are untouched by either.
pub proof fn law_frame_read_after_write(m: Bindings, k: Seq<char>, v: SStatement, other: Seq<char>)
    requires
        other != k,
    ensures
        m.insert(k, v).contains_key(k),
        m.insert(k, v)[k] == v,
        !m.remove(k).contains_key(k),
        m.insert(k, v).contains_key(other) == m.contains_key(other),
        m.contains_key(other) ==> m.insert(k, v)[other] == m[other],
        m.remove(k).contains_key(other) == m.contains_key(other),
        m.contains_key(other) ==> m.remove(k)[other] == m[other],
{
}

/// Joining keeps every binding of the frame joined in, and every binding of the
/// joining frame that the other does not override.
pub proof fn law_join_other_wins(m: Bindings, o: Bindings, k: Seq<char>)
    ensures
        o.contains_key(k) ==> m.union_prefer_right(o).contains_key(k) && m.union_prefer_right(o)[k] == o[k],
        !o.contains_key(k) ==> m.union_prefer_right(o).contains_key(k) == m.contains_key(k),
        !o.contains_key(k) && m.contains_key(k) ==> m.union_prefer_right(o)[k] == m[k],
{
}

impl Clone for Frame {
    fn clone(&self) -> (r: Self)
        ensures
            self.wf() ==> r.wf() && r@ == self@,
    {
        let r = Frame { map: copy_entries(&self.map) };
        proof {
            if self.wf() {
                lemma_view_pointwise(self.map@, r.map@);
            }
        }
        r
    }
}

/// Entries with the same names and values, position by position, stand for the same map.
proof fn lemma_view_pointwise(a: Seq<(String, Statement)>, b: Seq<(String, Statement)>)
    requires
        keys_distinct(a),
        a.len() == b.len(),
        forall|i: int| 0 <= i < a.len() ==> (#[trigger] b[i]).0@ == a[i].0@ && b[i].1@ == a[i].1@,
    ensures
        keys_distinct(b),
        entries_view(b) == entries_view(a),
{
    assert forall|i: int, j: int| 0 <= i < b.len() && 0 <= j < b.len() && i != j implies b[i].0@ != b[j].0@ by {
        assert(b[i].0@ == a[i].0@ && b[j].0@ == a[j].0@);
    }
    let ma = entries_view(a);
    let mb = entries_view(b);
    assert forall|k: Seq<char>| ma.contains_key(k) <==> mb.contains_key(k) by {
        if has_key(a, k) {
            let i = choose|i: int| 0 <= i < a.len() && a[i].0@ == k;
            assert(b[i].0@ == k);
        }
        if has_key(b, k) {
            let i = choose|i: int| 0 <= i < b.len() && b[i].0@ == k;
            assert(a[i].0@ == k);
        }
    }
    assert forall|k: Seq<char>| ma.contains_key(k) implies ma[k] == mb[k] by {
        let i = choose|i: int| 0 <= i < a.len() && a[i].0@ == k;
        assert(b[i].0@ == k);
        lemma_view_at(a, i);
        lemma_view_at(b, i);
    }
    assert(ma.dom() =~= mb.dom());
    assert(ma =~= mb);
}

/// A copy of a list of entries, entry by entry.
fn copy_entries(e: &Vec<(String, Statement)>) -> (r: Vec<(String, Statement)>)
    ensures
        r@.len() == e@.len(),
        forall|i: int| 0 <= i < e@.len() ==> (#[trigger] r@[i]).0@ == e@[i].0@ && r@[i].1@ == e@[i].1@,
{
    let mut r: Vec<(String, Statement)> = Vec::new();
    let mut i: usize = 0;
    while i < e.len()
        invariant
            i <= e@.len(),
            r@.len() == i,
            forall|j: int| 0 <= j < i ==> (#[trigger] r@[j]).0@ == e@[j].0@ && r@[j].1@ == e@[j].1@,
        decreases e@.len() - i,
    {
        r.push((e[i].0.clone(), e[i].1.copy()));
        i = i + 1;
    }
    r
}

impl Default for Frame {
    fn default() -> (r: Self)
        ensures
            r.wf(),
            r@ == Map::<Seq<char>, SStatement>::empty(),
    {
        Frame::new()
    }
}

} // verus!
