//! The store of clues: each question with its expected answer and number.

use vstd::prelude::*;
use crate::text::{random_in_range, to_uppercase, uppercase};

verus! {

/// A crossword clue: its number, the clue text and the expected answer.
#[derive(Debug, PartialEq, Eq, PartialOrd, Ord)]
pub struct Question {
    pub id: u64,
    pub question: String,
    pub answer: String,
}

impl Clone for Question {
    fn clone(&self) -> (res: Self)
        ensures
            res == *self,
    {
        Question { id: self.id, question: self.question.clone(), answer: self.answer.clone() }
    }
}

/// The clues loaded from the store, and how many were loaded.
#[derive(Debug, Clone)]
pub struct Questions {
    pub questions: Vec<Question>,
    pub len: u8,
}

/// `q` inserted into `s` after every clue whose number is not greater than
/// its own (so that clues with equal numbers keep their order).
pub open spec fn insert_by_id(s: Seq<Question>, q: Question) -> Seq<Question>
    decreases s.len(),
{
    if s.len() == 0 {
        seq![q]
    } else if s.last().id <= q.id {
        s.push(q)
    } else {
        insert_by_id(s.drop_last(), q).push(s.last())
    }
}

/// The stable sort of `s` by clue number.
pub open spec fn sort_by_id(s: Seq<Question>) -> Seq<Question>
    decreases s.len(),
{
    if s.len() == 0 {
        s
    } else {
        insert_by_id(sort_by_id(s.drop_last()), s.last())
    }
}

/// Clue numbers never decrease along `s`.
pub open spec fn ids_sorted(s: Seq<Question>) -> bool {
    forall|i: int, j: int| 0 <= i <= j < s.len() ==> s[i].id <= s[j].id
}

/// The clue that a store row (number, clue, answer) becomes: the number read
/// as unsigned, the answer in upper case.
pub open spec fn row_loaded(row: (i64, String, String), q: Question) -> bool {
    &&& q.id == row.0 as u64
    &&& q.question@ == row.1@
    &&& q.answer@ == uppercase(row.2@)
}

proof fn lemma_insert_by_id(t: Seq<Question>, q: Question)
    ensures
        insert_by_id(t, q).len() == t.len() + 1,
        insert_by_id(t, q).to_multiset() =~= t.to_multiset().insert(q),
        forall|k: int|
            0 <= k < t.len() + 1 ==> #[trigger] insert_by_id(t, q)[k] == q || exists|j: int|
                0 <= j < t.len() && insert_by_id(t, q)[k] == t[j],
        ids_sorted(t) ==> ids_sorted(insert_by_id(t, q)),
    decreases t.len(),
{
    broadcast use vstd::seq_lib::group_to_multiset_ensures;

    let r = insert_by_id(t, q);
    if t.len() == 0 {
        assert(r =~= Seq::<Question>::empty().push(q));
    } else if t.last().id <= q.id {
        assert forall|k: int| 0 <= k < t.len() + 1 implies #[trigger] r[k] == q || exists|j: int|
            0 <= j < t.len() && r[k] == t[j] by {
            if k < t.len() {
                assert(r[k] == t[k]);
            }
        }
    } else {
        let d = t.drop_last();
        lemma_insert_by_id(d, q);
        let inner = insert_by_id(d, q);
        assert(t =~= d.push(t.last()));
        assert(r == inner.push(t.last()));
        assert forall|k: int| 0 <= k < t.len() + 1 implies #[trigger] r[k] == q || exists|j: int|
            0 <= j < t.len() && r[k] == t[j] by {
            if k < t.len() {
                assert(r[k] == inner[k]);
                if inner[k] != q {
                    let j = choose|j: int| 0 <= j < d.len() && inner[k] == d[j];
                    assert(t[j] == d[j]);
                }
            } else {
                assert(r[k] == t[t.len() - 1]);
            }
        }
        if ids_sorted(t) {
            assert forall|i: int, j: int| 0 <= i <= j < r.len() implies r[i].id <= r[j].id by {
                if j == r.len() - 1 {
                    if i < j {
                        assert(r[i] == inner[i]);
                        if inner[i] != q {
                            let m = choose|m: int| 0 <= m < d.len() && inner[i] == d[m];
                            assert(d[m] == t[m]);
                        }
                    }
                } else {
                    assert(r[i] == inner[i]);
                    assert(r[j] == inner[j]);
                }
            }
        }
    }
}

/// Sorting by clue number keeps the clues, each as often as it was there,
/// and puts their numbers in order.
pub proof fn law_sort_by_id(s: Seq<Question>)
    ensures
        sort_by_id(s).len() == s.len(),
        sort_by_id(s).to_multiset() =~= s.to_multiset(),
        ids_sorted(sort_by_id(s)),
        forall|k: int|
            0 <= k < s.len() ==> exists|j: int| 0 <= j < s.len() && #[trigger] sort_by_id(s)[k] == s[j],
    decreases s.len(),
{
    broadcast use vstd::seq_lib::group_to_multiset_ensures;

    if s.len() > 0 {
        let d = s.drop_last();
        law_sort_by_id(d);
        let sd = sort_by_id(d);
        lemma_insert_by_id(sd, s.last());
        assert(s =~= d.push(s.last()));
        let r = sort_by_id(s);
        assert forall|k: int| 0 <= k < s.len() implies exists|j: int|
            0 <= j < s.len() && #[trigger] r[k] == s[j] by {
            if r[k] == s.last() {
                assert(r[k] == s[s.len() - 1]);
            } else {
                let m = choose|m: int| 0 <= m < sd.len() && r[k] == sd[m];
                let j = choose|j: int| 0 <= j < d.len() && #[trigger] sd[m] == d[j];
                assert(d[j] == s[j]);
            }
        }
    } else {
        assert(sort_by_id(s) =~= s);
    }
}

/// The numbers `1..=len`, in order.
pub open spec fn numbers_up_to(len: u8) -> Seq<u8> {
    Seq::new(len as nat, |j: int| (j + 1) as u8)
}

/// Each draw is an index into the numbers left of a pool of `n` after the
/// draws before it.
pub open spec fn draws_fit(n: nat, draws: Seq<usize>) -> bool {
    &&& draws.len() <= n
    &&& forall|k: int| 0 <= k < draws.len() ==> (#[trigger] draws[k]) < n - k
}

/// The numbers that the draws take from `pool`, in order: each draw takes,
/// and removes, the number at its index among those left.
pub open spec fn taken_by_draws(pool: Seq<u8>, draws: Seq<usize>) -> Seq<u8>
    decreases draws.len(),
{
    if draws.len() == 0 {
        Seq::empty()
    } else {
        seq![pool[draws[0] as int]] + taken_by_draws(pool.remove(draws[0] as int), draws.drop_first())
    }
}

/// Drawing from `1..=n`: the first draw takes the number one above its
/// index, and the numbers taken are all different and all in `1..=n`.
pub proof fn law_draws_take_different_numbers(n: u8, draws: Seq<usize>)
    requires
        draws_fit(n as nat, draws),
    ensures
        draws.len() > 0 ==> taken_by_draws(numbers_up_to(n), draws)[0] == draws[0] + 1,
        taken_by_draws(numbers_up_to(n), draws).len() == draws.len(),
        forall|k: int|
            0 <= k < draws.len() ==> 1 <= #[trigger] taken_by_draws(numbers_up_to(n), draws)[k] <= n,
        forall|k: int, l: int|
            0 <= k < l < draws.len() ==> #[trigger] taken_by_draws(numbers_up_to(n), draws)[k]
                != #[trigger] taken_by_draws(numbers_up_to(n), draws)[l],
{
    lemma_taken_by_draws(numbers_up_to(n), draws, n);
}

proof fn lemma_taken_by_draws(pool: Seq<u8>, draws: Seq<usize>, n: u8)
    requires
        draws.len() <= pool.len(),
        forall|k: int| 0 <= k < draws.len() ==> (#[trigger] draws[k]) < pool.len() - k,
        forall|j: int| 0 <= j < pool.len() ==> 1 <= #[trigger] pool[j] <= n,
        forall|i: int, j: int| 0 <= i < j < pool.len() ==> #[trigger] pool[i] != #[trigger] pool[j],
    ensures
        taken_by_draws(pool, draws).len() == draws.len(),
        draws.len() > 0 ==> taken_by_draws(pool, draws)[0] == pool[draws[0] as int],
        forall|k: int| 0 <= k < draws.len() ==> pool.contains(#[trigger] taken_by_draws(pool, draws)[k]),
        forall|k: int| 0 <= k < draws.len() ==> 1 <= #[trigger] taken_by_draws(pool, draws)[k] <= n,
        forall|k: int, l: int|
            0 <= k < l < draws.len() ==> #[trigger] taken_by_draws(pool, draws)[k]
                != #[trigger] taken_by_draws(pool, draws)[l],
    decreases draws.len(),
{
    if draws.len() > 0 {
        let d = draws[0] as int;
        let rest = pool.remove(d);
        let tail = draws.drop_first();
        assert forall|k: int| 0 <= k < tail.len() implies (#[trigger] tail[k]) < rest.len() - k by {
            assert(tail[k] == draws[k + 1]);
        }
        assert forall|j: int| 0 <= j < rest.len() implies 1 <= #[trigger] rest[j] <= n by {
            if j < d { assert(rest[j] == pool[j]); } else { assert(rest[j] == pool[j + 1]); }
        }
        assert forall|i: int, j: int| 0 <= i < j < rest.len() implies #[trigger] rest[i] != #[trigger] rest[j] by {
            let pi = if i < d { i } else { i + 1 };
            let pj = if j < d { j } else { j + 1 };
            assert(rest[i] == pool[pi] && rest[j] == pool[pj]);
        }
        lemma_taken_by_draws(rest, tail, n);
        let t = taken_by_draws(pool, draws);
        let tt = taken_by_draws(rest, tail);
        assert(t == seq![pool[d]] + tt);
        assert forall|k: int| 0 <= k < draws.len() implies pool.contains(#[trigger] t[k]) by {
            if k == 0 {
                assert(t[0] == pool[d]);
            } else {
                assert(t[k] == tt[k - 1]);
                let j = choose|j: int| 0 <= j < rest.len() && rest[j] == tt[k - 1];
                if j < d { assert(rest[j] == pool[j]); } else { assert(rest[j] == pool[j + 1]); }
            }
        }
        assert forall|k: int| 0 <= k < draws.len() implies 1 <= #[trigger] t[k] <= n by {
            if k > 0 {
                assert(t[k] == tt[k - 1]);
            }
        }
        assert forall|k: int, l: int| 0 <= k < l < draws.len() implies #[trigger] t[k] != #[trigger] t[l] by {
            assert(t[l] == tt[l - 1]);
            if k == 0 {
                let j = choose|j: int| 0 <= j < rest.len() && rest[j] == tt[l - 1];
                if j < d {
                    assert(rest[j] == pool[j]);
                } else {
                    assert(rest[j] == pool[j + 1]);
                }
            } else {
                assert(t[k] == tt[k - 1]);
            }
        }
    }
}

/// Whether a clue has the number `v`.
pub open spec fn has_number(v: u64) -> spec_fn(Question) -> bool {
    |q: Question| q.id == v
}

proof fn lemma_insert_keeps_order(t: Seq<Question>, q: Question, v: u64)
    requires
        ids_sorted(t),
    ensures
        insert_by_id(t, q).filter(has_number(v)) == if q.id == v {
            t.filter(has_number(v)).push(q)
        } else {
            t.filter(has_number(v))
        },
    decreases t.len(),
{
    let f = has_number(v);
    if t.len() == 0 {
        Seq::<Question>::empty().lemma_filter_push(q, f);
        assert(Seq::<Question>::empty().push(q) =~= seq![q]);
        assert(Seq::<Question>::empty().filter(f) =~= Seq::<Question>::empty());
        assert(t =~= Seq::<Question>::empty());
    } else if t.last().id <= q.id {
        t.lemma_filter_push(q, f);
    } else {
        let d = t.drop_last();
        assert(ids_sorted(d)) by {
            assert forall|i: int, j: int| 0 <= i <= j < d.len() implies d[i].id <= d[j].id by {
                assert(d[i] == t[i] && d[j] == t[j]);
            }
        }
        lemma_insert_keeps_order(d, q, v);
        insert_by_id(d, q).lemma_filter_push(t.last(), f);
        d.lemma_filter_push(t.last(), f);
        assert(t =~= d.push(t.last()));
    }
}

/// Sorting by clue number keeps the clues of each number in their order:
/// the clues numbered `v` come out as they went in.
pub proof fn law_sort_keeps_equal_numbers_in_order(s: Seq<Question>, v: u64)
    ensures
        sort_by_id(s).filter(has_number(v)) == s.filter(has_number(v)),
    decreases s.len(),
{
    if s.len() > 0 {
        let d = s.drop_last();
        law_sort_keeps_equal_numbers_in_order(d, v);
        law_sort_by_id(d);
        lemma_insert_keeps_order(sort_by_id(d), s.last(), v);
        d.lemma_filter_push(s.last(), has_number(v));
        assert(s =~= d.push(s.last()));
    }
}

/// Some clue of `qs` has the number `v`.
pub open spec fn number_given(qs: Seq<Question>, v: int) -> bool {
    exists|k: int| 0 <= k < qs.len() && #[trigger] qs[k].id == v
}

/// Clue numbers that are all different and all in `1..=n`, for `n` clues,
/// are exactly the numbers `1..=n`: each is given to some clue.
pub proof fn law_numbers_are_a_permutation(qs: Seq<Question>, n: int)
    requires
        qs.len() == n,
        forall|k: int| 0 <= k < qs.len() ==> 1 <= (#[trigger] qs[k]).id <= n,
        forall|k: int, l: int| 0 <= k < l < qs.len() ==> (#[trigger] qs[k]).id != (#[trigger] qs[l]).id,
    ensures
        forall|v: int| 1 <= v <= n ==> #[trigger] number_given(qs, v),
{
    let ids = Seq::new(qs.len(), |k: int| qs[k].id as int);
    assert(ids.no_duplicates()) by {
        assert forall|i: int, j: int| 0 <= i < ids.len() && 0 <= j < ids.len() && i != j implies ids[i] != ids[j] by {
            if i < j {
                assert(qs[i].id != qs[j].id);
            } else {
                assert(qs[j].id != qs[i].id);
            }
        }
    }
    ids.unique_seq_to_set();
    vstd::seq_lib::seq_to_set_is_finite(ids);
    vstd::set_lib::lemma_int_range(1, n + 1);
    let range = vstd::set_lib::set_int_range(1, n + 1);
    assert(ids.to_set().subset_of(range)) by {
        assert forall|v: int| ids.to_set().contains(v) implies range.contains(v) by {
            let k = choose|k: int| 0 <= k < ids.len() && ids[k] == v;
            assert(1 <= qs[k].id <= n);
        }
    }
    vstd::set_lib::lemma_subset_equality(ids.to_set(), range);
    assert forall|v: int| 1 <= v <= n implies #[trigger] number_given(qs, v) by {
        assert(range.contains(v));
        assert(ids.to_set().contains(v));
        let k = choose|k: int| 0 <= k < ids.len() && ids[k] == v;
        assert(qs[k].id == v);
    }
}

impl Questions {
    /// A store that holds one empty clue and counts no clue as loaded.
    pub fn new() -> (res: Self)
        ensures
            res.len == 0,
            res.questions@.len() == 1,
            res.questions@[0].id == 0,
            res.questions@[0].question@ == Seq::<char>::empty(),
            res.questions@[0].answer@ == Seq::<char>::empty(),
    {
        let question = Question { id: 0, question: String::new(), answer: String::new() };
        let mut questions = Vec::new();
        questions.push(question);
        Questions { questions, len: 0 }
    }

    /// Replaces the clues by the rows read from the store, in their order,
    /// with answers in upper case; `len` is their number modulo 256.
    pub fn load_questions(&mut self, rows: Vec<(i64, String, String)>)
        ensures
            final(self).questions@.len() == rows@.len(),
            forall|k: int|
                0 <= k < rows@.len() ==> row_loaded(#[trigger] rows@[k], final(self).questions@[k]),
            forall|k: int|
                0 <= k < rows@.len() ==> {
                    &&& (#[trigger] final(self).questions@[k]).id == rows@[k].0 as u64
                    &&& final(self).questions@[k].question@ == rows@[k].1@
                    &&& final(self).questions@[k].answer@ == uppercase(rows@[k].2@)
                },
            final(self).len == rows@.len() as u8,
    {
        self.questions.clear();
        let n = rows.len();
        for i in 0..n
            invariant
                n == rows@.len(),
                self.questions@.len() == i,
                forall|k: int| 0 <= k < i ==> row_loaded(#[trigger] rows@[k], self.questions@[k]),
        {
            let row = &rows[i];
            let question = Question {
                id: row.0 as u64,
                question: row.1.clone(),
                answer: to_uppercase(row.2.as_str()),
            };
            self.questions.push(question);
        }
        self.len = self.questions.len() as u8;
    }

    /// Gives the clues the numbers that the draws take from `1..=len`: clue
    /// `k` the number that draw `k` takes (each draw an index into the
    /// numbers not taken yet). Text and answers stay as they are.
    pub fn number_by_draws(&mut self, draws: &Vec<usize>)
        requires
            old(self).questions@.len() <= old(self).len,
            draws@.len() == old(self).questions@.len(),
            draws_fit(old(self).len as nat, draws@),
        ensures
            final(self).len == old(self).len,
            final(self).questions@.len() == old(self).questions@.len(),
            forall|k: int|
                0 <= k < final(self).questions@.len() ==> {
                    &&& (#[trigger] final(self).questions@[k]).question == old(self).questions@[k].question
                    &&& final(self).questions@[k].answer == old(self).questions@[k].answer
                    &&& final(self).questions@[k].id == taken_by_draws(numbers_up_to(old(self).len), draws@)[k]
                    &&& 1 <= final(self).questions@[k].id <= final(self).len
                },
            forall|k: int, l: int|
                0 <= k < l < final(self).questions@.len() ==> (#[trigger] final(self).questions@[k]).id
                    != (#[trigger] final(self).questions@[l]).id,
    {
        let len = self.len;
        let n = self.questions.len();
        // The numbers that no clue has yet.
        let mut pool: Vec<u8> = Vec::new();
        let mut v: u8 = 0;
        while v < len
            invariant
                v <= len,
                pool@.len() == v,
                forall|j: int| 0 <= j < v ==> pool@[j] == j + 1,
            decreases len - v,
        {
            v = v + 1;
            pool.push(v);
        }
        assert(pool@ =~= numbers_up_to(len));
        assert(draws@.skip(0) =~= draws@);
        let ghost old_questions = self.questions@;
        let ghost all = taken_by_draws(numbers_up_to(len), draws@);
        let ghost mut taken: Seq<u8> = Seq::empty();
        for k in 0..n
            invariant
                n == self.questions@.len(),
                n == old_questions.len(),
                n == draws@.len(),
                n <= len,
                len == self.len,
                draws_fit(len as nat, draws@),
                pool@.len() == len - k,
                taken.len() == k,
                all == taken_by_draws(numbers_up_to(len), draws@),
                taken + taken_by_draws(pool@, draws@.skip(k as int)) == all,
                forall|j: int| 0 <= j < k ==> (#[trigger] self.questions@[j]).id == taken[j],
                forall|j: int| 0 <= j < pool@.len() ==> 1 <= #[trigger] pool@[j] <= len,
                forall|i: int, j: int| 0 <= i < j < pool@.len() ==> #[trigger] pool@[i] != #[trigger] pool@[j],
                forall|j: int|
                    0 <= j < n ==> {
                        &&& (#[trigger] self.questions@[j]).question == old_questions[j].question
                        &&& self.questions@[j].answer == old_questions[j].answer
                    },
                forall|j: int| 0 <= j < k ==> 1 <= (#[trigger] self.questions@[j]).id <= len,
                forall|j: int, i: int|
                    0 <= j < k && 0 <= i < pool@.len() ==> (#[trigger] self.questions@[j]).id != #[trigger] pool@[i] as u64,
                forall|i: int, j: int|
                    0 <= i < j < k ==> (#[trigger] self.questions@[i]).id != (#[trigger] self.questions@[j]).id,
        {
            let r = draws[k];
            assert(r < len - k);
            let ghost before = pool@;
            let ghost rest = draws@.skip(k as int);
            let id = pool.remove(r);
            proof {
                assert(rest[0] == r);
                assert(rest.drop_first() =~= draws@.skip(k + 1));
                assert(taken_by_draws(before, rest) == seq![id] + taken_by_draws(pool@, draws@.skip(k + 1)));
                assert(taken + taken_by_draws(before, rest) =~= taken.push(id) + taken_by_draws(
                    pool@,
                    draws@.skip(k + 1),
                ));
                taken = taken.push(id);
            }
            assert forall|i: int| 0 <= i < pool@.len() implies #[trigger] pool@[i] != id by {
                if i < r {
                    assert(before[i] == pool@[i]);
                } else {
                    assert(before[i + 1] == pool@[i]);
                }
            }
            assert forall|i: int| 0 <= i < pool@.len() implies #[trigger] pool@[i] == (if i < r { before[i] } else { before[i + 1] }) by {}
            self.questions[k].id = id as u64;
        }
        proof {
            assert(draws@.skip(n as int) =~= Seq::<usize>::empty());
            assert(taken + taken_by_draws(pool@, draws@.skip(n as int)) =~= taken);
        }
    }

    /// Gives the clues the numbers `1..=len` in a random order: each clue a
    /// different number, the one that a random draw takes. Text and answers
    /// stay as they are.
    pub fn draw_questions_order(&mut self)
        requires
            old(self).questions@.len() <= old(self).len,
        ensures
            final(self).len == old(self).len,
            final(self).questions@.len() == old(self).questions@.len(),
            forall|k: int|
                0 <= k < final(self).questions@.len() ==> {
                    &&& (#[trigger] final(self).questions@[k]).question == old(self).questions@[k].question
                    &&& final(self).questions@[k].answer == old(self).questions@[k].answer
                    &&& 1 <= final(self).questions@[k].id <= final(self).len
                },
            forall|k: int, l: int|
                0 <= k < l < final(self).questions@.len() ==> (#[trigger] final(self).questions@[k]).id
                    != (#[trigger] final(self).questions@[l]).id,
            exists|draws: Seq<usize>|
                #![trigger taken_by_draws(numbers_up_to(old(self).len), draws)]
                draws.len() == old(self).questions@.len() && draws_fit(old(self).len as nat, draws) && forall|k: int|
                    0 <= k < final(self).questions@.len() ==> (#[trigger] final(self).questions@[k]).id
                        == taken_by_draws(numbers_up_to(old(self).len), draws)[k],
    {
        let len = self.len;
        let n = self.questions.len();
        let mut draws: Vec<usize> = Vec::new();
        for k in 0..n
            invariant
                n <= len,
                draws@.len() == k,
                forall|j: int| 0 <= j < k ==> (#[trigger] draws@[j]) < len - j,
        {
            let r = random_in_range(0, len as usize - 1 - k);
            draws.push(r);
        }
        assert(draws_fit(len as nat, draws@));
        let ghost d = draws@;
        self.number_by_draws(&draws);
        assert(taken_by_draws(numbers_up_to(len), d) == taken_by_draws(numbers_up_to(len), d));
    }

    /// The first `number_of_questions` clues in the order of their numbers
    /// (clues with equal numbers in their stored order).
    pub fn return_questions(&self, number_of_questions: u8) -> (res: Vec<Question>)
        requires
            number_of_questions <= self.questions@.len(),
        ensures
            res@ == sort_by_id(self.questions@).take(number_of_questions as int),
    {
        let n = self.questions.len();
        let mut sorted: Vec<Question> = Vec::new();
        for i in 0..n
            invariant
                n == self.questions@.len(),
                sorted@.len() == i,
                sorted@ == sort_by_id(self.questions@.take(i as int)),
        {
            let q = self.questions[i].clone();
            let mut pos = sorted.len();
            assert(sorted@.take(pos as int) =~= sorted@);
            assert(sorted@.skip(pos as int) =~= Seq::<Question>::empty());
            while pos > 0 && sorted[pos - 1].id > q.id
                invariant
                    pos <= sorted@.len(),
                    insert_by_id(sorted@, q) == insert_by_id(sorted@.take(pos as int), q) + sorted@.skip(pos as int),
                decreases pos,
            {
                assert(sorted@.take(pos as int).drop_last() =~= sorted@.take(pos - 1));
                assert(sorted@.skip(pos - 1) =~= seq![sorted@[pos - 1]] + sorted@.skip(pos as int));
                pos = pos - 1;
            }
            proof {
                if pos == 0 {
                    assert(sorted@.take(0) =~= Seq::<Question>::empty());
                }
                assert(sorted@.take(pos as int).insert(pos as int, q) =~= sorted@.take(pos as int).push(q));
                assert(sorted@.insert(pos as int, q) =~= sorted@.take(pos as int).push(q) + sorted@.skip(pos as int));
                assert(self.questions@.take(i + 1).drop_last() =~= self.questions@.take(i as int));
            }
            sorted.insert(pos, q);
        }
        assert(self.questions@.take(n as int) =~= self.questions@);
        sorted.truncate(number_of_questions as usize);
        assert(sorted@ =~= sort_by_id(self.questions@).take(number_of_questions as int));
        sorted
    }
}

} // verus!
