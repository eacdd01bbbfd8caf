//! The configuration: the candidates, and the cutoffs the judge looks at.
//!
//! The judge's significance level and its absolute floors are fractions,
//! and stay with the binary that reads the file.
use vstd::prelude::*;
use crate::candidate::{Candidate, contains, no_placeholder_message, empty_id_field_message};
use crate::table::joined;
use crate::text::{append, chars_of, owned, text_less, lemma_text_less_strict, lemma_text_less_total, lemma_text_less_transitive};

verus! {

/// Ranks at which a case counts as found when the file names none: `1` is
/// "did the right answer come first", `5` is "was it anywhere near the top".
pub fn cutoffs_default() -> (v: Vec<usize>)
    ensures
        v@ == seq![1usize, 5usize],
{
    let mut v: Vec<usize> = Vec::new();
    v.push(1);
    v.push(5);
    v
}

#[derive(Debug, PartialEq)]
pub struct Config {
    /// The candidates, by ascending name, each name once (`well_formed`).
    candidate: Vec<(String, Candidate)>,
    /// Ranks at which a case counts as found.
    cutoffs: Vec<usize>,
}

/// The names of the candidates, in order.
pub open spec fn names(c: Seq<(String, Candidate)>) -> Seq<Seq<char>> {
    c.map_values(|p: (String, Candidate)| p.0@)
}

/// The candidate is usable: its url has a `{query}` placeholder and its
/// id field a name.
pub open spec fn usable(c: Candidate) -> bool {
    contains(c.url@, "{query}"@) && c.id_field@.len() > 0
}

/// Why a candidate is not usable.
pub open spec fn unusable_message(c: Candidate) -> Seq<char> {
    if !contains(c.url@, "{query}"@) {
        no_placeholder_message()
    } else {
        empty_id_field_message()
    }
}

/// The first of the first `n` candidates that is not usable.
pub open spec fn first_unusable(c: Seq<(String, Candidate)>, n: int) -> Option<int>
    decreases n,
{
    if n <= 0 {
        None
    } else {
        match first_unusable(c, n - 1) {
            Some(i) => Some(i),
            None => if !usable(c[n - 1].1) {
                Some(n - 1)
            } else {
                None
            },
        }
    }
}

proof fn lemma_first_unusable_stays(c: Seq<(String, Candidate)>, n: int, m: int)
    requires
        0 < n <= m,
        first_unusable(c, n) is Some,
    ensures
        first_unusable(c, m) == first_unusable(c, n),
    decreases m - n,
{
    if m > n {
        lemma_first_unusable_stays(c, n, m - 1);
    }
}

/// The candidate named `name`, among the first `n`.
pub open spec fn find_upto(c: Seq<(String, Candidate)>, name: Seq<char>, n: int) -> Option<int>
    decreases n,
{
    if n <= 0 {
        None
    } else {
        match find_upto(c, name, n - 1) {
            Some(i) => Some(i),
            None => if c[n - 1].0@ == name {
                Some(n - 1)
            } else {
                None
            },
        }
    }
}

proof fn lemma_find_stays(c: Seq<(String, Candidate)>, name: Seq<char>, n: int, m: int)
    requires
        0 < n <= m,
        find_upto(c, name, n) is Some,
    ensures
        find_upto(c, name, m) == find_upto(c, name, n),
    decreases m - n,
{
    if m > n {
        lemma_find_stays(c, name, n, m - 1);
    }
}

/// Whether `a` sorts before `b`.
fn less(a: &str, b: &str) -> (r: bool)
    ensures
        r == text_less(a@, b@),
{
    let x = chars_of(a);
    let y = chars_of(b);
    let mut i: usize = 0;
    assert(x@.subrange(0, x@.len() as int) =~= x@);
    assert(y@.subrange(0, y@.len() as int) =~= y@);
    while i < x.len() && i < y.len() && x[i] == y[i]
        invariant
            x@ == a@,
            y@ == b@,
            i <= x@.len(),
            i <= y@.len(),
            text_less(a@, b@) == text_less(x@.subrange(i as int, x@.len() as int), y@.subrange(i as int, y@.len() as int)),
        decreases x.len() - i,
    {
        assert(x@.subrange(i as int, x@.len() as int).drop_first() =~= x@.subrange(i + 1, x@.len() as int));
        assert(y@.subrange(i as int, y@.len() as int).drop_first() =~= y@.subrange(i + 1, y@.len() as int));
        i = i + 1;
    }
    let ghost xs = x@.subrange(i as int, x@.len() as int);
    let ghost ys = y@.subrange(i as int, y@.len() as int);
    if i == x.len() {
        assert(xs.len() == 0);
        i < y.len()
    } else if i == y.len() {
        assert(ys.len() == 0);
        false
    } else {
        assert(xs[0] == x@[i as int] && ys[0] == y@[i as int]);
        x[i] < y[i]
    }
}

/// The candidate named `name`, if any: the first entry of that name.
pub open spec fn lookup(c: Seq<(String, Candidate)>, name: Seq<char>) -> Option<Candidate> {
    match find_upto(c, name, c.len() as int) {
        Some(i) => Some(c[i].1),
        None => None,
    }
}

/// The names are in ascending order, each once, as the keys of a sorted map.
pub open spec fn sorted_names(c: Seq<(String, Candidate)>) -> bool {
    forall|i: int, j: int| 0 <= i < j < c.len() ==> text_less(#[trigger] c[i].0@, #[trigger] c[j].0@)
}

/// With each name once, the entry of a name is the one that bears it.
proof fn lemma_find_the_one(c: Seq<(String, Candidate)>, name: Seq<char>, n: int, i: int)
    requires
        sorted_names(c),
        0 <= i < n <= c.len(),
        c[i].0@ == name,
    ensures
        find_upto(c, name, n) == Some(i),
    decreases n,
{
    if n - 1 > i {
        lemma_find_the_one(c, name, n - 1, i);
        lemma_text_less_strict(c[i].0@, c[n - 1].0@);
    } else {
        assert forall|j: int| 0 <= j < i implies (#[trigger] c[j]).0@ != name by {
            lemma_text_less_strict(c[j].0@, c[i].0@);
        }
        lemma_find_none(c, name, i);
    }
}

proof fn lemma_find_none(c: Seq<(String, Candidate)>, name: Seq<char>, n: int)
    requires
        0 <= n <= c.len(),
        forall|j: int| 0 <= j < n ==> (#[trigger] c[j]).0@ != name,
    ensures
        find_upto(c, name, n) is None,
    decreases n,
{
    if n > 0 {
        lemma_find_none(c, name, n - 1);
    }
}

/// Not found among sorted names: none of them bears it.
proof fn lemma_lookup_none(c: Seq<(String, Candidate)>, name: Seq<char>)
    requires
        forall|j: int| 0 <= j < c.len() ==> (#[trigger] c[j]).0@ != name,
    ensures
        lookup(c, name) is None,
{
    lemma_find_none(c, name, c.len() as int);
}

/// Sorted names: the entry of each name is the one that bears it.
proof fn lemma_lookup_at(c: Seq<(String, Candidate)>, i: int)
    requires
        sorted_names(c),
        0 <= i < c.len(),
    ensures
        lookup(c, c[i].0@) == Some(c[i].1),
{
    lemma_find_the_one(c, c[i].0@, c.len() as int, i);
}

proof fn lemma_first_unusable_none(c: Seq<(String, Candidate)>, n: int)
    requires
        0 <= n <= c.len(),
    ensures
        first_unusable(c, n) is None <==> forall|i: int| 0 <= i < n ==> usable(#[trigger] c[i].1),
    decreases n,
{
    if n > 0 {
        lemma_first_unusable_none(c, n - 1);
        if first_unusable(c, n - 1) is Some {
            lemma_first_unusable_stays(c, n - 1, n);
        }
    }
}

pub open spec fn nothing_to_judge_message() -> Seq<char> {
    "judge.cutoffs is empty, so there is nothing to judge"@
}

pub open spec fn unknown_candidate_message(name: Seq<char>, known: Seq<Seq<char>>) -> Seq<char> {
    if known.len() == 0 {
        "no candidate is configured"@
    } else {
        "no candidate `"@ + name + "`; this file has: "@ + joined(known, ", "@)
    }
}

impl Config {
    /// The configuration can be used: every candidate usable, and some
    /// cutoff to judge at.
    pub open spec fn valid(self) -> bool {
        &&& first_unusable(self.entries(), self.entries().len() as int) is None
        &&& self.cutoff_list().len() > 0
    }

    /// The candidates with their names, in the order they are held.
    pub closed spec fn entries(self) -> Seq<(String, Candidate)> {
        self.candidate@
    }

    /// The ranks at which a case counts as found.
    pub closed spec fn cutoff_list(self) -> Seq<usize> {
        self.cutoffs@
    }

    /// The candidates are held as a sorted map holds them: by ascending
    /// name, each name once.
    #[verifier::type_invariant]
    spec fn well_formed(self) -> bool {
        sorted_names(self.candidate@)
    }

    /// No candidate yet, and the given cutoffs.
    pub fn new(cutoffs: Vec<usize>) -> (c: Config)
        ensures
            c.entries().len() == 0,
            c.cutoff_list() == cutoffs@,
    {
        let candidate: Vec<(String, Candidate)> = Vec::new();
        assert(sorted_names(candidate@));
        Config { candidate, cutoffs }
    }

    /// The candidates with their names, by ascending name, each name once.
    pub fn candidates(&self) -> (c: &[(String, Candidate)])
        ensures
            c@ == self.entries(),
            sorted_names(c@),
    {
        proof {
            use_type_invariant(self);
        }
        self.candidate.as_slice()
    }

    /// The ranks at which a case counts as found.
    pub fn cutoffs(&self) -> (c: &[usize])
        ensures
            c@ == self.cutoff_list(),
    {
        self.cutoffs.as_slice()
    }

    /// Adds a candidate under `name`, in its place among the names, or
    /// replaces the one already there: every other name keeps its
    /// candidate, and `name` now reads back as `cand`.
    pub fn insert(&mut self, name: String, cand: Candidate)
        ensures
            final(self).cutoff_list() == old(self).cutoff_list(),
            lookup(final(self).entries(), name@) == Some(cand),
            forall|n: Seq<char>| n != name@ ==> lookup(final(self).entries(), n) == lookup(old(self).entries(), n),
            forall|n: Seq<char>|
                #![trigger names(final(self).entries()).contains(n)]
                names(final(self).entries()).contains(n) <==> (n == name@ || names(old(self).entries()).contains(n)),
    {
        proof {
            use_type_invariant(&*self);
        }
        let mut v: Vec<(String, Candidate)> = Vec::new();
        std::mem::swap(&mut v, &mut self.candidate);
        let ghost c0 = v@;
        let mut i: usize = 0;
        while i < v.len() && less(v[i].0.as_str(), name.as_str())
            invariant
                c0 == v@,
                sorted_names(c0),
                i <= c0.len(),
                forall|j: int| 0 <= j < i ==> text_less((#[trigger] c0[j]).0@, name@),
            decreases v.len() - i,
        {
            i = i + 1;
        }
        let ghost nv = name@;
        let ghost entry = (name, cand);
        let same = i < v.len() && v[i].0 == name;
        if same {
            v.remove(i);
        }
        v.insert(i, (name, cand));
        let ghost c1 = v@;
        proof {
            if !same && i < c0.len() {
                lemma_text_less_total(c0[i as int].0@, nv);
            }
            // Every name after position `i` of the old list sorts after `name`.
            assert forall|j: int| i <= j < c0.len() && !(same && j == i) implies text_less(
                nv,
                (#[trigger] c0[j]).0@,
            ) by {
                if j > i {
                    if same {
                        assert(c0[i as int].0@ == nv);
                    } else {
                        lemma_text_less_total(c0[i as int].0@, nv);
                        lemma_text_less_strict(c0[i as int].0@, nv);
                    }
                    if !same {
                        lemma_text_less_transitive(nv, c0[i as int].0@, c0[j].0@);
                    }
                } else {
                    lemma_text_less_total(c0[i as int].0@, nv);
                    lemma_text_less_strict(c0[i as int].0@, nv);
                }
            }
            // The new list is the old one with `entry` at `i`, in place of
            // the entry of the same name if there was one.
            let skip: int = if same { 1 } else { 0 };
            assert(c1.len() == c0.len() + 1 - skip);
            assert forall|j: int| 0 <= j < c1.len() implies #[trigger] c1[j] == if j < i {
                c0[j]
            } else if j == i {
                entry
            } else {
                c0[j - 1 + skip]
            } by {}
            assert forall|a: int, b: int| 0 <= a < b < c1.len() implies text_less(
                #[trigger] c1[a].0@,
                #[trigger] c1[b].0@,
            ) by {
                if b < i {
                } else if b == i {
                } else if a < i {
                    lemma_text_less_transitive(c1[a].0@, nv, c1[b].0@);
                } else if a == i {
                } else {
                }
            }
            assert(c1[i as int].0@ == nv);
            lemma_lookup_at(c1, i as int);
            assert forall|n: Seq<char>| n != nv implies lookup(c1, n) == lookup(c0, n) by {
                if exists|j: int| 0 <= j < c0.len() && (#[trigger] c0[j]).0@ == n {
                    let j = choose|j: int| 0 <= j < c0.len() && (#[trigger] c0[j]).0@ == n;
                    lemma_lookup_at(c0, j);
                    if j < i {
                        assert(c1[j] == c0[j]);
                        lemma_lookup_at(c1, j);
                    } else {
                        if same && j == i {
                            assert(false);
                        }
                        assert(c1[j + 1 - skip] == c0[j]);
                        lemma_lookup_at(c1, j + 1 - skip);
                    }
                } else {
                    lemma_lookup_none(c0, n);
                    assert forall|t: int| 0 <= t < c1.len() implies (#[trigger] c1[t]).0@ != n by {
                        if t < i {
                        } else if t == i {
                        } else {
                            assert(c1[t] == c0[t - 1 + skip]);
                        }
                    }
                    lemma_lookup_none(c1, n);
                }
            }
            assert forall|n: Seq<char>|
                #![trigger names(c1).contains(n)]
                names(c1).contains(n) <==> (n == nv || names(c0).contains(n)) by {
                if names(c1).contains(n) {
                    let t = names(c1).index_of(n);
                    if t < i {
                        assert(names(c0)[t] == n);
                    } else if t > i {
                        assert(names(c0)[t - 1 + skip] == n);
                    }
                }
                if names(c0).contains(n) {
                    let j = names(c0).index_of(n);
                    if j < i {
                        assert(names(c1)[j] == n);
                    } else if same && j == i {
                        assert(names(c1)[i as int] == n);
                    } else {
                        assert(names(c1)[j + 1 - skip] == n);
                    }
                }
                if n == nv {
                    assert(names(c1)[i as int] == n);
                }
            }
        }
        self.candidate = v;
    }

    /// A configuration can be used exactly when every candidate has a
    /// `{query}` placeholder and an id field, and some cutoff is named.
    pub proof fn law_usable_exactly_when_every_candidate_is(self)
        ensures
            self.valid() <==> (forall|i: int|
                0 <= i < self.entries().len() ==> contains((#[trigger] self.entries()[i]).1.url@, "{query}"@)
                    && self.entries()[i].1.id_field@.len() > 0) && self.cutoff_list().len() > 0,
    {
        lemma_first_unusable_none(self.entries(), self.entries().len() as int);
    }

    /// Why the configuration cannot be used: the first problem found.
    pub open spec fn refusal(self) -> Seq<char> {
        let c = self.entries();
        match first_unusable(c, c.len() as int) {
            Some(i) => "candidate `"@ + c[i].0@ + "`: "@ + unusable_message(c[i].1),
            None => nothing_to_judge_message(),
        }
    }

    /// Refuses a configuration that cannot be used, naming the candidate
    /// at fault.
    pub fn check(&self) -> (r: Result<(), String>)
        ensures
            match r {
                Ok(()) => self.valid(),
                Err(e) => !self.valid() && e@ == self.refusal(),
            },
    {
        let mut i: usize = 0;
        while i < self.candidate.len()
            invariant
                i <= self.candidate@.len(),
                first_unusable(self.candidate@, i as int) is None,
            decreases self.candidate.len() - i,
        {
            match self.candidate[i].1.check() {
                Ok(()) => {},
                Err(e) => {
                    proof {
                        lemma_first_unusable_stays(self.candidate@, i + 1, self.candidate@.len() as int);
                    }
                    let mut m = owned("candidate `");
                    append(&mut m, self.candidate[i].0.as_str());
                    append(&mut m, "`: ");
                    append(&mut m, e.as_str());
                    return Err(m);
                },
            }
            i = i + 1;
        }
        if self.cutoffs.len() == 0 {
            return Err(owned("judge.cutoffs is empty, so there is nothing to judge"));
        }
        Ok(())
    }

    /// A candidate by name, or an error that says what is there.
    pub fn get(&self, name: &str) -> (r: Result<&Candidate, String>)
        ensures
            match r {
                Ok(c) => find_upto(self.entries(), name@, self.entries().len() as int) matches Some(i)
                    && *c == self.entries()[i].1,
                Err(e) => find_upto(self.entries(), name@, self.entries().len() as int) is None
                    && e@ == unknown_candidate_message(name@, names(self.entries())),
            },
    {
        let wanted = owned(name);
        let mut i: usize = 0;
        while i < self.candidate.len()
            invariant
                wanted@ == name@,
                i <= self.candidate@.len(),
                find_upto(self.candidate@, name@, i as int) is None,
            decreases self.candidate.len() - i,
        {
            if self.candidate[i].0 == wanted {
                proof {
                    lemma_find_stays(self.candidate@, name@, i + 1, self.candidate@.len() as int);
                }
                return Ok(&self.candidate[i].1);
            }
            i = i + 1;
        }
        if self.candidate.len() == 0 {
            return Err(owned("no candidate is configured"));
        }
        let mut m = owned("no candidate `");
        append(&mut m, name);
        append(&mut m, "`; this file has: ");
        let ghost known = names(self.candidate@);
        let mut j: usize = 0;
        let ghost start = m@;
        while j < self.candidate.len()
            invariant
                known == names(self.candidate@),
                j <= self.candidate@.len(),
                m@ == start + joined(known.subrange(0, j as int), ", "@),
            decreases self.candidate.len() - j,
        {
            proof {
                assert(known.subrange(0, j + 1).drop_last() =~= known.subrange(0, j as int));
            }
            if j > 0 {
                append(&mut m, ", ");
            }
            append(&mut m, self.candidate[j].0.as_str());
            j = j + 1;
            proof {
                if j == 1 {
                    assert(known.subrange(0, 0) =~= Seq::<Seq<char>>::empty());
                }
                assert(m@ =~= start + joined(known.subrange(0, j as int), ", "@));
            }
        }
        assert(known.subrange(0, known.len() as int) =~= known);
        Err(m)
    }
}

} // verus!
