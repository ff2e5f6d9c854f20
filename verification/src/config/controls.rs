//! The controls of a configuration, found by name and walked in order of names.

use super::ControlConfig;
use vstd::prelude::*;

verus! {

/// Whether one name stands before another in the order of names: at the first
/// character where they differ it has the lesser one, or it ends there.
pub open spec fn name_before(a: Seq<char>, b: Seq<char>) -> bool
    decreases a.len(),
{
    if b.len() == 0 {
        false
    } else if a.len() == 0 {
        true
    } else if a[0] != b[0] {
        (a[0] as u32) < (b[0] as u32)
    } else {
        name_before(a.skip(1), b.skip(1))
    }
}

/// No name stands before itself.
pub proof fn lemma_not_before_itself(a: Seq<char>)
    ensures
        !name_before(a, a),
    decreases a.len(),
{
    if a.len() > 0 {
        lemma_not_before_itself(a.skip(1));
    }
}

/// The order of names is transitive.
pub proof fn lemma_before_transitive(a: Seq<char>, b: Seq<char>, c: Seq<char>)
    requires
        name_before(a, b),
        name_before(b, c),
    ensures
        name_before(a, c),
    decreases a.len(),
{
    if a.len() > 0 && a[0] == b[0] && b[0] == c[0] {
        lemma_before_transitive(a.skip(1), b.skip(1), c.skip(1));
    }
}

/// Names are ordered by the first character in which they differ, and a name
/// stands before all that it begins.
pub proof fn names_are_ordered_by_their_first_difference(
    start: Seq<char>,
    a: char,
    b: char,
    rest_a: Seq<char>,
    rest_b: Seq<char>,
)
    ensures
        a != b ==> (name_before(start.push(a) + rest_a, start.push(b) + rest_b) <==> (a as u32) < (
        b as u32)),
        name_before(start, start.push(a) + rest_a),
        !name_before(start.push(a) + rest_a, start),
    decreases start.len(),
{
    let x = start.push(a) + rest_a;
    let y = start.push(b) + rest_b;
    if start.len() > 0 {
        let less = start.skip(1);
        names_are_ordered_by_their_first_difference(less, a, b, rest_a, rest_b);
        assert(x.skip(1) =~= less.push(a) + rest_a);
        assert(y.skip(1) =~= less.push(b) + rest_b);
        assert(x[0] == start[0] && y[0] == start[0]);
    } else {
        assert(x[0] == a && y[0] == b);
    }
}

/// Characters that differ have codes that differ.
proof fn lemma_characters_differ(a: char, b: char)
    requires
        a != b,
    ensures
        (a as u32) != (b as u32),
{
}

/// Of two names that differ one stands before the other, and only one.
pub proof fn names_are_in_order(a: Seq<char>, b: Seq<char>)
    ensures
        a != b ==> name_before(a, b) || name_before(b, a),
        !(name_before(a, b) && name_before(b, a)),
    decreases a.len(),
{
    if a.len() > 0 && b.len() > 0 && a[0] == b[0] {
        names_are_in_order(a.skip(1), b.skip(1));
        if a.skip(1) == b.skip(1) {
            assert(a =~= seq![a[0]] + a.skip(1));
            assert(b =~= seq![b[0]] + b.skip(1));
        }
    } else if a.len() == 0 && b.len() == 0 {
        assert(a =~= b);
    } else if a.len() > 0 && b.len() > 0 {
        lemma_characters_differ(a[0], b[0]);
    }
}

/// Where one name stands to another.
#[derive(Clone, Copy, Debug, PartialEq, Eq, Structural)]
enum Place {
    Before,
    Same,
    After,
}

/// Where the first name stands to the second.
fn place(a: &str, b: &str) -> (r: Place)
    ensures
        r is Before <==> name_before(a@, b@),
        r is Same <==> a@ == b@,
        r is After <==> name_before(b@, a@),
{
    let la: usize = a.unicode_len();
    let lb: usize = b.unicode_len();
    let mut i: usize = 0;
    proof {
        assert(a@.skip(0) =~= a@);
        assert(b@.skip(0) =~= b@);
        lemma_not_before_itself(a@);
        lemma_not_before_itself(b@);
    }
    while i < la && i < lb
        invariant
            la == a@.len(),
            lb == b@.len(),
            i <= la,
            i <= lb,
            a@.take(i as int) == b@.take(i as int),
            name_before(a@, b@) == name_before(a@.skip(i as int), b@.skip(i as int)),
            name_before(b@, a@) == name_before(b@.skip(i as int), a@.skip(i as int)),
        decreases la - i,
    {
        let ca: char = a.get_char(i);
        let cb: char = b.get_char(i);
        let ghost ta = a@.skip(i as int);
        let ghost tb = b@.skip(i as int);
        assert(ta[0] == ca && tb[0] == cb);
        if (ca as u32) < (cb as u32) {
            assert(a@[i as int] != b@[i as int]);
            return Place::Before;
        }
        if (cb as u32) < (ca as u32) {
            assert(a@[i as int] != b@[i as int]);
            return Place::After;
        }
        proof {
            assert(ta.skip(1) =~= a@.skip(i + 1));
            assert(tb.skip(1) =~= b@.skip(i + 1));
            assert(a@.take(i + 1) =~= a@.take(i as int).push(ca));
            assert(b@.take(i + 1) =~= b@.take(i as int).push(cb));
        }
        i = i + 1;
    }
    if la < lb {
        Place::Before
    } else if lb < la {
        Place::After
    } else {
        proof {
            assert(a@.take(i as int) =~= a@);
            assert(b@.take(i as int) =~= b@);
        }
        Place::Same
    }
}

/// The controls by their names.
#[derive(Clone, Debug, PartialEq, Eq)]
pub struct Controls {
    pub entries: Vec<(String, ControlConfig)>,
}

impl View for Controls {
    type V = Map<Seq<char>, ControlConfig>;

    open spec fn view(&self) -> Map<Seq<char>, ControlConfig> {
        Map::new(|name: Seq<char>| self.has(name), |name: Seq<char>| self.found(name))
    }
}

impl Controls {
    /// The name at a place.
    pub open spec fn name(&self, i: int) -> Seq<char> {
        self.entries@[i].0@
    }

    /// There is a control under a name.
    pub open spec fn has(&self, name: Seq<char>) -> bool {
        exists|i: int| 0 <= i < self.entries@.len() && #[trigger] self.name(i) == name
    }

    /// The control under a name.
    pub open spec fn found(&self, name: Seq<char>) -> ControlConfig {
        let i = choose|i: int| 0 <= i < self.entries@.len() && #[trigger] self.name(i) == name;
        self.entries@[i].1
    }

    /// The names stand in order, each once.
    pub open spec fn well_formed(&self) -> bool {
        forall|i: int, j: int|
            0 <= i < j < self.entries@.len() ==> name_before(
                #[trigger] self.name(i),
                #[trigger] self.name(j),
            )
    }

    /// In order, a name is found in one place.
    proof fn lemma_found_at(&self, i: int)
        requires
            self.well_formed(),
            0 <= i < self.entries@.len(),
        ensures
            self@.dom().contains(self.name(i)),
            self@[self.name(i)] == self.entries@[i].1,
    {
        let name = self.name(i);
        let j = choose|j: int| 0 <= j < self.entries@.len() && #[trigger] self.name(j) == name;
        lemma_not_before_itself(name);
        if j < i {
            assert(name_before(self.name(j), self.name(i)));
        } else if i < j {
            assert(name_before(self.name(i), self.name(j)));
        }
    }

    /// No controls.
    pub fn new() -> (r: Controls)
        ensures
            r.well_formed(),
            r@ == Map::<Seq<char>, ControlConfig>::empty(),
    {
        let r: Controls = Controls { entries: Vec::new() };
        assert(r@ =~= Map::<Seq<char>, ControlConfig>::empty());
        r
    }

    /// Puts a control under a name, in place of one that had the name.
    pub fn insert(&mut self, name: String, control: ControlConfig)
        requires
            old(self).well_formed(),
        ensures
            final(self).well_formed(),
            final(self)@ == old(self)@.insert(name@, control),
    {
        let ghost before = *self;
        let mut at: usize = 0;
        while at < self.entries.len()
            invariant
                *self == before,
                before == *old(self),
                before.well_formed(),
                at <= self.entries@.len(),
                forall|i: int| 0 <= i < at ==> name_before(#[trigger] self.name(i), name@),
            decreases self.entries@.len() - at,
        {
            match place(self.entries[at].0.as_str(), name.as_str()) {
                Place::Before => {
                    assert(name_before(self.name(at as int), name@));
                    at = at + 1;
                },
                Place::Same => {
                    self.entries.set(at, (name, control));
                    proof {
                        self.lemma_replaced(before, name@, control, at as int);
                    }
                    return;
                },
                Place::After => {
                    self.entries.insert(at, (name, control));
                    proof {
                        assert(name_before(name@, before.name(at as int)));
                        self.lemma_inserted(before, name@, control, at as int);
                    }
                    return;
                },
            }
        }
        self.entries.push((name, control));
        proof {
            assert(self.entries@ =~= before.entries@.insert(at as int, self.entries@[at as int]));
            self.lemma_inserted(before, name@, control, at as int);
        }
    }

    proof fn lemma_replaced(
        &self,
        before: Controls,
        name: Seq<char>,
        control: ControlConfig,
        at: int,
    )
        requires
            before.well_formed(),
            0 <= at < before.entries@.len(),
            before.name(at) == name,
            self.entries@ == before.entries@.update(at, self.entries@[at]),
            self.entries@[at].0@ == name,
            self.entries@[at].1 == control,
        ensures
            self.well_formed(),
            self@ == before@.insert(name, control),
    {
        assert forall|i: int| 0 <= i < self.entries@.len() implies #[trigger] self.name(i)
            == before.name(i) by {}
        assert(self.well_formed()) by {
            assert forall|i: int, j: int| 0 <= i < j < self.entries@.len() implies name_before(
                #[trigger] self.name(i),
                #[trigger] self.name(j),
            ) by {
                assert(name_before(before.name(i), before.name(j)));
            }
        }
        assert forall|n: Seq<char>|
            self@.dom().contains(n) == before@.insert(name, control).dom().contains(n) by {
            if self.has(n) {
                let i = choose|i: int| 0 <= i < self.entries@.len() && #[trigger] self.name(i) == n;
                assert(before.name(i) == n);
            }
            if before.has(n) {
                let i = choose|i: int|
                    0 <= i < before.entries@.len() && #[trigger] before.name(i) == n;
                assert(self.name(i) == n);
            }
            assert(self.name(at) == name);
        }
        assert forall|n: Seq<char>| self@.dom().contains(n) implies self@[n] == before@.insert(
            name,
            control,
        )[n] by {
            let i = choose|i: int| 0 <= i < self.entries@.len() && #[trigger] self.name(i) == n;
            self.lemma_found_at(i);
            before.lemma_found_at(i);
            if i != at {
                lemma_not_before_itself(name);
                if n == name {
                    self.lemma_found_at(at);
                }
            }
        }
        assert(self@ =~= before@.insert(name, control));
    }

    proof fn lemma_inserted(
        &self,
        before: Controls,
        name: Seq<char>,
        control: ControlConfig,
        at: int,
    )
        requires
            before.well_formed(),
            0 <= at <= before.entries@.len(),
            forall|i: int| 0 <= i < at ==> name_before(#[trigger] before.name(i), name),
            at < before.entries@.len() ==> name_before(name, before.name(at)),
            self.entries@ == before.entries@.insert(at, self.entries@[at]),
            self.entries@[at].0@ == name,
            self.entries@[at].1 == control,
        ensures
            self.well_formed(),
            self@ == before@.insert(name, control),
    {
        assert forall|i: int| 0 <= i < self.entries@.len() implies #[trigger] self.name(i) == (
        if i < at {
            before.name(i)
        } else if i == at {
            name
        } else {
            before.name(i - 1)
        }) by {}
        assert forall|j: int| at <= j < before.entries@.len() implies name_before(
            name,
            #[trigger] before.name(j),
        ) by {
            if j > at {
                assert(name_before(before.name(at), before.name(j)));
                lemma_before_transitive(name, before.name(at), before.name(j));
            }
        }
        assert(self.well_formed()) by {
            assert forall|i: int, j: int| 0 <= i < j < self.entries@.len() implies name_before(
                #[trigger] self.name(i),
                #[trigger] self.name(j),
            ) by {
                let bi = if i < at {
                    i
                } else {
                    i - 1
                };
                let bj = if j < at {
                    j
                } else {
                    j - 1
                };
                if i != at && j != at {
                    assert(name_before(before.name(bi), before.name(bj)));
                }
            }
        }
        assert forall|n: Seq<char>|
            self@.dom().contains(n) == before@.insert(name, control).dom().contains(n) by {
            if self.has(n) {
                let i = choose|i: int| 0 <= i < self.entries@.len() && #[trigger] self.name(i) == n;
                if i < at {
                    assert(before.name(i) == n);
                } else if i > at {
                    assert(before.name(i - 1) == n);
                }
            }
            if before.has(n) {
                let i = choose|i: int|
                    0 <= i < before.entries@.len() && #[trigger] before.name(i) == n;
                if i < at {
                    assert(self.name(i) == n);
                } else {
                    assert(self.name(i + 1) == n);
                }
            }
            assert(self.name(at) == name);
        }
        assert forall|n: Seq<char>| self@.dom().contains(n) implies self@[n] == before@.insert(
            name,
            control,
        )[n] by {
            let i = choose|i: int| 0 <= i < self.entries@.len() && #[trigger] self.name(i) == n;
            self.lemma_found_at(i);
            self.lemma_found_at(at);
            if i < at {
                before.lemma_found_at(i);
            } else if i > at {
                before.lemma_found_at(i - 1);
            }
            lemma_not_before_itself(n);
        }
        assert(self@ =~= before@.insert(name, control));
    }
}

/// What is found under a name is what was entered under it, and nothing is found
/// under any other name.
pub proof fn what_is_found_was_entered(controls: Controls, name: Seq<char>)
    requires
        controls.well_formed(),
    ensures
        controls@.dom().contains(name) <==> exists|i: int|
            0 <= i < controls.entries@.len() && (#[trigger] controls.entries@[i]).0@ == name,
        forall|i: int|
            0 <= i < controls.entries@.len() && (#[trigger] controls.entries@[i]).0@ == name
                ==> controls@[name] == controls.entries@[i].1,
{
    assert forall|i: int|
        0 <= i < controls.entries@.len() && (#[trigger] controls.entries@[i]).0@
            == name implies controls@.dom().contains(name) && controls@[name]
        == controls.entries@[i].1 by {
        controls.lemma_found_at(i);
        assert(controls.name(i) == name);
    }
    if controls@.dom().contains(name) {
        let i = choose|i: int|
            0 <= i < controls.entries@.len() && #[trigger] controls.name(i) == name;
        assert(controls.entries@[i].0@ == name);
    }
}

/// The names in a collection strictly ascend, by the first character in which
/// two of them differ.
pub proof fn names_ascend(controls: Controls, i: int, j: int)
    requires
        controls.well_formed(),
        0 <= i < j < controls.entries@.len(),
    ensures
        name_before(controls.entries@[i].0@, controls.entries@[j].0@),
        controls.entries@[i].0@ != controls.entries@[j].0@,
{
    assert(name_before(controls.name(i), controls.name(j)));
    lemma_not_before_itself(controls.name(i));
}

/// A name that one of two collections with the same contents has at a place,
/// where they agree up to that place, stands no earlier in the other.
proof fn lemma_found_no_earlier(a: Controls, b: Controls, i: int) -> (k: int)
    requires
        a.well_formed(),
        b.well_formed(),
        a@ == b@,
        0 <= i < a.entries@.len(),
        i <= b.entries@.len(),
        forall|j: int| 0 <= j < i ==> #[trigger] a.name(j) == b.name(j),
    ensures
        i <= k < b.entries@.len(),
        b.name(k) == a.name(i),
{
    a.lemma_found_at(i);
    assert(b@.dom().contains(a.name(i)));
    let k = choose|k: int| 0 <= k < b.entries@.len() && #[trigger] b.name(k) == a.name(i);
    if k < i {
        assert(a.name(k) == b.name(k));
        assert(name_before(a.name(k), a.name(i)));
        lemma_not_before_itself(a.name(i));
    }
    k
}

proof fn lemma_same_names(a: Controls, b: Controls, n: int)
    requires
        a.well_formed(),
        b.well_formed(),
        a@ == b@,
        0 <= n <= a.entries@.len(),
        n <= b.entries@.len(),
    ensures
        forall|i: int| 0 <= i < n ==> #[trigger] a.name(i) == b.name(i),
    decreases n,
{
    if n > 0 {
        let i = n - 1;
        lemma_same_names(a, b, i);
        let k = lemma_found_no_earlier(a, b, i);
        let m = lemma_found_no_earlier(b, a, i);
        if k > i {
            assert(name_before(b.name(i), b.name(k)));
            if m > i {
                assert(name_before(a.name(i), a.name(m)));
                lemma_before_transitive(a.name(i), b.name(i), a.name(i));
            }
            lemma_not_before_itself(a.name(i));
        }
    }
}

/// The same controls under the same names are walked in the same order, however
/// they were put there.
pub proof fn order_is_determined(a: Controls, b: Controls)
    requires
        a.well_formed(),
        b.well_formed(),
        a@ == b@,
    ensures
        a.entries@.len() == b.entries@.len(),
        forall|i: int|
            0 <= i < a.entries@.len() ==> #[trigger] a.name(i) == b.name(i) && a.entries@[i].1
                == b.entries@[i].1,
{
    let la = a.entries@.len() as int;
    let lb = b.entries@.len() as int;
    let n = if la <= lb {
        la
    } else {
        lb
    };
    lemma_same_names(a, b, n);
    if n < la {
        lemma_found_no_earlier(a, b, n);
    }
    if n < lb {
        lemma_found_no_earlier(b, a, n);
    }
    assert forall|i: int| 0 <= i < la implies #[trigger] a.name(i) == b.name(i) && a.entries@[i].1
        == b.entries@[i].1 by {
        a.lemma_found_at(i);
        b.lemma_found_at(i);
    }
}

} // verus!
