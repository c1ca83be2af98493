//! Frequency tables: a mapping from token to occurrence count, built for one
//! page and merged into per-document aggregates. A table's meaning is a total
//! map from token to count; absence means count zero, and stored entries
//! always have count at least one.

use vstd::prelude::*;

verus! {

/// The table in which every token has count zero.
pub open spec fn zero_table() -> Map<Seq<char>, nat> {
    Map::new(|t: Seq<char>| true, |t: Seq<char>| 0 as nat)
}

/// Pointwise sum of two tables.
pub open spec fn table_add(a: Map<Seq<char>, nat>, b: Map<Seq<char>, nat>) -> Map<
    Seq<char>,
    nat,
> {
    Map::new(|t: Seq<char>| true, |t: Seq<char>| a[t] + b[t])
}

/// Merging tables is commutative: adding `a` into `b` and adding `b` into `a`
/// give identical counts for every token.
pub proof fn lemma_table_add_comm(a: Map<Seq<char>, nat>, b: Map<Seq<char>, nat>)
    ensures
        table_add(a, b) == table_add(b, a),
{
    assert(table_add(a, b) =~= table_add(b, a));
}

/// Merging tables is associative: the grouping of merges never changes the
/// final counts.
pub proof fn lemma_table_add_assoc(
    a: Map<Seq<char>, nat>,
    b: Map<Seq<char>, nat>,
    c: Map<Seq<char>, nat>,
)
    ensures
        table_add(table_add(a, b), c) == table_add(a, table_add(b, c)),
{
    assert(table_add(table_add(a, b), c) =~= table_add(a, table_add(b, c)));
}

/// Merging the empty table changes nothing (for tables that assign a count to
/// every token, as every table view of this module does).
pub proof fn lemma_table_add_zero(a: Map<Seq<char>, nat>)
    requires
        forall|t: Seq<char>| a.dom().contains(t),
    ensures
        table_add(a, zero_table()) == a,
{
    assert(table_add(a, zero_table()) =~= a);
}

/// The count a stored entry list assigns to `t`: the count of the first entry
/// whose key is `t`, or zero if there is none.
closed spec fn count_in(es: Seq<(String, usize)>, t: Seq<char>) -> nat
    decreases es.len(),
{
    if es.len() == 0 {
        0
    } else if es[0].0@ == t {
        es[0].1 as nat
    } else {
        count_in(es.drop_first(), t)
    }
}

/// The sum of all stored counts.
closed spec fn sum_counts(es: Seq<(String, usize)>) -> nat
    decreases es.len(),
{
    if es.len() == 0 {
        0
    } else {
        (es[0].1 + sum_counts(es.drop_first())) as nat
    }
}

/// Whether some stored entry has key `t`.
closed spec fn has_key(es: Seq<(String, usize)>, t: Seq<char>) -> bool {
    exists|i: int| 0 <= i < es.len() && es[i].0@ == t
}

/// No two stored entries share a key.
closed spec fn distinct_keys(es: Seq<(String, usize)>) -> bool {
    forall|i: int, j: int| 0 <= i < j < es.len() ==> es[i].0@ != es[j].0@
}

proof fn lemma_count_in_absent(es: Seq<(String, usize)>, t: Seq<char>)
    requires
        !has_key(es, t),
    ensures
        count_in(es, t) == 0,
    decreases es.len(),
{
    if es.len() > 0 {
        assert(es[0].0@ != t);
        assert(forall|i: int|
            0 <= i < es.drop_first().len() ==> es.drop_first()[i] == es[i + 1]);
        lemma_count_in_absent(es.drop_first(), t);
    }
}

proof fn lemma_count_in_first(es: Seq<(String, usize)>, i: int, t: Seq<char>)
    requires
        0 <= i < es.len(),
        forall|k: int| 0 <= k < i ==> es[k].0@ != t,
        es[i].0@ == t,
    ensures
        count_in(es, t) == es[i].1,
    decreases es.len(),
{
    if i > 0 {
        lemma_count_in_first(es.drop_first(), i - 1, t);
    }
}

proof fn lemma_count_in_push(es: Seq<(String, usize)>, e: (String, usize), t: Seq<char>)
    ensures
        count_in(es.push(e), t) == if has_key(es, t) {
            count_in(es, t)
        } else if e.0@ == t {
            e.1 as nat
        } else {
            0
        },
    decreases es.len(),
{
    if es.len() == 0 {
        assert(es.push(e)[0] == e);
        assert(es.push(e).len() == 1);
        if e.0@ != t {
            assert(!has_key(es.push(e), t)) by {
                assert(forall|i: int| 0 <= i < 1 ==> es.push(e)[i] == e);
            }
            lemma_count_in_absent(es.push(e), t);
        }
    } else {
        assert(es.push(e).drop_first() =~= es.drop_first().push(e));
        lemma_count_in_push(es.drop_first(), e, t);
        if es[0].0@ == t {
            assert(has_key(es, t));
        } else {
            assert(has_key(es.drop_first(), t) == has_key(es, t)) by {
                if has_key(es, t) {
                    let i = choose|i: int| 0 <= i < es.len() && es[i].0@ == t;
                    assert(i > 0);
                    assert(es.drop_first()[i - 1].0@ == t);
                }
                if has_key(es.drop_first(), t) {
                    let i = choose|i: int|
                        0 <= i < es.drop_first().len() && es.drop_first()[i].0@ == t;
                    assert(es[i + 1].0@ == t);
                }
            }
        }
    }
}

proof fn lemma_count_in_update(es: Seq<(String, usize)>, i: int, e: (String, usize), t: Seq<char>)
    requires
        distinct_keys(es),
        0 <= i < es.len(),
        e.0@ == es[i].0@,
    ensures
        count_in(es.update(i, e), t) == if t == e.0@ {
            e.1 as nat
        } else {
            count_in(es, t)
        },
    decreases es.len(),
{
    if i == 0 {
        assert(es.update(0, e)[0] == e);
        if t == e.0@ {
        } else {
            assert(es.update(0, e).drop_first() =~= es.drop_first());
        }
    } else {
        assert(es.update(i, e)[0] == es[0]);
        assert(es.update(i, e).drop_first() =~= es.drop_first().update(i - 1, e));
        assert(distinct_keys(es.drop_first())) by {
            assert(forall|k: int|
                0 <= k < es.drop_first().len() ==> es.drop_first()[k] == es[k + 1]);
        }
        lemma_count_in_update(es.drop_first(), i - 1, e, t);
        if t == e.0@ {
            assert(es[0].0@ != es[i].0@);
        }
    }
}

proof fn lemma_sum_counts_push(es: Seq<(String, usize)>, e: (String, usize))
    ensures
        sum_counts(es.push(e)) == sum_counts(es) + e.1,
    decreases es.len(),
{
    if es.len() == 0 {
        assert(es.push(e)[0] == e);
        assert(es.push(e).drop_first() =~= Seq::<(String, usize)>::empty());
        assert(sum_counts(es.push(e).drop_first()) == 0);
        assert(sum_counts(es.push(e)) == e.1);
    } else {
        assert(es.push(e)[0] == es[0]);
        assert(es.push(e).drop_first() =~= es.drop_first().push(e));
        lemma_sum_counts_push(es.drop_first(), e);
        assert(sum_counts(es.push(e)) == (es[0].1 + sum_counts(es.push(e).drop_first())) as nat);
        assert(sum_counts(es.push(e).drop_first()) == sum_counts(es.drop_first().push(e)));
        assert(sum_counts(es) == (es[0].1 + sum_counts(es.drop_first())) as nat);
    }
}

proof fn lemma_sum_counts_update(es: Seq<(String, usize)>, i: int, e: (String, usize))
    requires
        0 <= i < es.len(),
    ensures
        sum_counts(es.update(i, e)) + es[i].1 == sum_counts(es) + e.1,
    decreases es.len(),
{
    if i == 0 {
        assert(es.update(0, e)[0] == e);
        assert(es.update(0, e).drop_first() =~= es.drop_first());
    } else {
        assert(es.update(i, e)[0] == es[0]);
        assert(es.update(i, e).drop_first() =~= es.drop_first().update(i - 1, e));
        lemma_sum_counts_update(es.drop_first(), i - 1, e);
    }
}

proof fn lemma_count_le_sum(es: Seq<(String, usize)>, t: Seq<char>)
    ensures
        count_in(es, t) <= sum_counts(es),
    decreases es.len(),
{
    if es.len() > 0 {
        lemma_count_le_sum(es.drop_first(), t);
    }
}

proof fn lemma_sum_counts_take_step(es: Seq<(String, usize)>, i: int)
    requires
        0 <= i < es.len(),
    ensures
        sum_counts(es.take(i + 1)) == sum_counts(es.take(i)) + es[i].1,
{
    assert(es.take(i + 1) =~= es.take(i).push(es[i]));
    lemma_sum_counts_push(es.take(i), es[i]);
}

proof fn lemma_sum_counts_split(es: Seq<(String, usize)>, i: int)
    requires
        0 <= i <= es.len(),
    ensures
        sum_counts(es) == sum_counts(es.take(i)) + sum_counts(es.skip(i)),
    decreases i,
{
    if i == 0 {
        assert(es.take(0) =~= Seq::<(String, usize)>::empty());
        assert(es.skip(0) =~= es);
    } else {
        lemma_sum_counts_split(es, i - 1);
        lemma_sum_counts_take_step(es, i - 1);
        assert(es.skip(i - 1)[0] == es[i - 1]);
        assert(es.skip(i - 1).drop_first() =~= es.skip(i));
    }
}


/// A frequency table for one page or one document: each stored entry maps a
/// token to its occurrence count (always at least one; absence means zero).
pub struct FrequencyTable {
    entries: Vec<(String, usize)>,
    total: usize,
}

impl View for FrequencyTable {
    type V = Map<Seq<char>, nat>;

    /// The table as a total map from token to count.
    closed spec fn view(&self) -> Map<Seq<char>, nat> {
        Map::new(|t: Seq<char>| true, |t: Seq<char>| count_in(self.entries@, t))
    }
}

impl FrequencyTable {
    /// Well-formedness: keys are unique, stored counts are at least one, and
    /// the running total is the sum of all stored counts.
    pub closed spec fn wf(self) -> bool {
        &&& distinct_keys(self.entries@)
        &&& forall|i: int| 0 <= i < self.entries@.len() ==> (#[trigger] self.entries@[i]).1 >= 1
        &&& self.total == sum_counts(self.entries@)
    }

    /// The sum of all occurrence counts in the table.
    pub closed spec fn spec_total(self) -> nat {
        sum_counts(self.entries@)
    }

    /// An empty table: every count is zero.
    pub fn new() -> (r: Self)
        ensures
            r.wf(),
            r@ == zero_table(),
            r.spec_total() == 0,
    {
        let r = FrequencyTable { entries: Vec::new(), total: 0 };
        proof {
            assert(r@ =~= zero_table());
        }
        r
    }

    /// Add `c` occurrences of `token`, inserting the entry if absent.
    fn bump(&mut self, token: &String, c: usize)
        requires
            old(self).wf(),
            c >= 1,
            old(self).spec_total() + c <= usize::MAX,
        ensures
            final(self).wf(),
            final(self)@ == old(self)@.insert(token@, (old(self)@[token@] + c) as nat),
            final(self).spec_total() == old(self).spec_total() + c,
    {
        let n = self.entries.len();
        let mut i: usize = 0;
        while i < n
            invariant
                i <= n,
                n == self.entries@.len(),
                *self == *old(self),
                old(self).wf(),
                c >= 1,
                old(self).spec_total() + c <= usize::MAX,
                forall|k: int| 0 <= k < i ==> (#[trigger] self.entries@[k]).0@ != token@,
            decreases n - i,
        {
            if self.entries[i].0 == *token {
                proof {
                    lemma_count_in_first(self.entries@, i as int, token@);
                    lemma_count_le_sum(self.entries@, token@);
                }
                let c0 = self.entries[i].1;
                let key = self.entries[i].0.clone();
                let ghost es0 = self.entries@;
                self.entries[i] = (key, c0 + c);
                self.total = self.total + c;
                proof {
                    assert(forall|t: Seq<char>| count_in(self.entries@, t) == count_in(
                        es0.update(i as int, self.entries@[i as int]), t));
                    assert forall|t: Seq<char>| count_in(self.entries@, t) == old(self)@.insert(
                        token@,
                        (old(self)@[token@] + c) as nat,
                    )[t] by {
                        lemma_count_in_update(
                            es0,
                            i as int,
                            (self.entries@[i as int].0, (c0 + c) as usize),
                            t,
                        );
                    }
                    lemma_sum_counts_update(es0, i as int, self.entries@[i as int]);
                    assert(self@ =~= old(self)@.insert(token@, (old(self)@[token@] + c) as nat));
                    assert(distinct_keys(self.entries@)) by {
                        assert(forall|k: int|
                            0 <= k < self.entries@.len() && k != i ==> self.entries@[k]
                                == es0[k]);
                    }
                }
                return ;
            }
            i += 1;
        }
        proof {
            assert(!has_key(self.entries@, token@));
            lemma_count_in_absent(self.entries@, token@);
        }
        let ghost es0 = self.entries@;
        self.entries.push((token.clone(), c));
        self.total = self.total + c;
        proof {
            assert(forall|t: Seq<char>| count_in(self.entries@, t) == count_in(
                es0.push((*token, c)), t)) by {
                assert(self.entries@ == es0.push(self.entries@[self.entries@.len() - 1]));
            }
            assert forall|t: Seq<char>| count_in(self.entries@, t) == old(self)@.insert(
                token@,
                (old(self)@[token@] + c) as nat,
            )[t] by {
                lemma_count_in_push(es0, self.entries@[self.entries@.len() - 1], t);
                if !has_key(es0, t) {
                    lemma_count_in_absent(es0, t);
                }
            }
            assert(self@ =~= old(self)@.insert(token@, (old(self)@[token@] + c) as nat));
            lemma_sum_counts_push(es0, self.entries@[self.entries@.len() - 1]);
            assert(distinct_keys(self.entries@)) by {
                assert(forall|k: int| 0 <= k < es0.len() ==> self.entries@[k] == es0[k]);
            }
        }
    }

    /// Record one occurrence of `token`, inserting it at count one if absent.
    pub fn record(&mut self, token: String)
        requires
            old(self).wf(),
            old(self).spec_total() < usize::MAX,
        ensures
            final(self).wf(),
            final(self)@ == old(self)@.insert(token@, (old(self)@[token@] + 1) as nat),
            final(self).spec_total() == old(self).spec_total() + 1,
    {
        self.bump(&token, 1);
    }

    /// Add every count of `other` into `self`, creating entries as needed.
    pub fn merge_from(&mut self, other: &FrequencyTable)
        requires
            old(self).wf(),
            other.wf(),
            old(self).spec_total() + other.spec_total() <= usize::MAX,
        ensures
            final(self).wf(),
            final(self)@ == table_add(old(self)@, other@),
            final(self).spec_total() == old(self).spec_total() + other.spec_total(),
    {
        let n = other.entries.len();
        let mut i: usize = 0;
        proof {
            assert(other.entries@.take(0) =~= Seq::<(String, usize)>::empty());
            assert(self@ =~= Map::new(
                |t: Seq<char>| true,
                |t: Seq<char>| (old(self)@[t] + count_in(other.entries@.take(0), t)) as nat,
            ));
        }
        while i < n
            invariant
                i <= n,
                n == other.entries@.len(),
                other.wf(),
                self.wf(),
                self@ == Map::new(
                    |t: Seq<char>| true,
                    |t: Seq<char>| (old(self)@[t] + count_in(other.entries@.take(i as int), t)) as nat,
                ),
                self.spec_total() == old(self).spec_total() + sum_counts(
                    other.entries@.take(i as int),
                ),
                old(self).spec_total() + other.spec_total() <= usize::MAX,
            decreases n - i,
        {
            let ghost pre = self@;
            let ghost taken = other.entries@.take(i as int);
            let e = &other.entries[i];
            proof {
                lemma_sum_counts_take_step(other.entries@, i as int);
                lemma_sum_counts_split(other.entries@, i as int + 1);
                assert(other.entries@[i as int].1 >= 1);
            }
            self.bump(&e.0, e.1);
            proof {
                let enow = other.entries@[i as int];
                assert(other.entries@.take(i as int + 1) =~= taken.push(enow));
                assert(!has_key(taken, enow.0@)) by {
                    assert(forall|k: int| 0 <= k < i ==> #[trigger] taken[k]
                        == other.entries@[k]);
                }
                lemma_count_in_absent(taken, enow.0@);
                assert forall|t: Seq<char>| #[trigger] self@[t] == (old(self)@[t] + count_in(
                    other.entries@.take(i as int + 1),
                    t,
                )) as nat by {
                    lemma_count_in_push(taken, enow, t);
                    if !has_key(taken, t) {
                        lemma_count_in_absent(taken, t);
                    }
                }
                assert(self@ =~= Map::new(
                    |t: Seq<char>| true,
                    |t: Seq<char>| (old(self)@[t] + count_in(
                        other.entries@.take(i as int + 1),
                        t,
                    )) as nat,
                ));
            }
            i += 1;
        }
        proof {
            assert(other.entries@.take(n as int) =~= other.entries@);
            assert(self@ =~= table_add(old(self)@, other@));
        }
    }

    /// The stored count for `term`, zero if absent. Never fails, whatever the
    /// term.
    pub fn count(&self, term: &str) -> (r: usize)
        ensures
            r == self@[term@],
    {
        let key: String = term.to_owned();
        let n = self.entries.len();
        let mut i: usize = 0;
        while i < n
            invariant
                i <= n,
                n == self.entries@.len(),
                key@ == term@,
                forall|k: int| 0 <= k < i ==> (#[trigger] self.entries@[k]).0@ != term@,
            decreases n - i,
        {
            if self.entries[i].0 == key {
                proof {
                    lemma_count_in_first(self.entries@, i as int, term@);
                }
                return self.entries[i].1;
            }
            i += 1;
        }
        proof {
            assert(!has_key(self.entries@, term@));
            lemma_count_in_absent(self.entries@, term@);
        }
        0
    }

    /// The sum of all occurrence counts in the table.
    pub fn total_count(&self) -> (r: usize)
        requires
            self.wf(),
        ensures
            r == self.spec_total(),
    {
        self.total
    }
}

} // verus!
