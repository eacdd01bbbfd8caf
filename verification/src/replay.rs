//! Replaying a corpus against a candidate, one question at a time.
//!
//! The network is the binary's: it asks for the next URL, fetches it, and
//! hands the answer back. What is kept of each answer, and when a replay
//! stops, is decided here.
use vstd::prelude::*;
use crate::candidate::{Candidate, request_url_of};
use crate::corpus::{Case, Corpus};
use crate::record::{is_rank_of, rank_of, Outcome};
use crate::text::{append, debug_quoted, decimal, owned, push_decimal, quoted};
use vstd::utf8::encode_utf8;

verus! {

/// A JSON number: the unsigned integer it is, when it is one, and its
/// decimal writing.
#[derive(Debug, Clone, PartialEq)]
pub struct JsonNumber {
    pub as_u64: Option<u64>,
    pub text: String,
}

/// A JSON value, as a candidate's answer holds it.
#[derive(Debug)]
pub enum Json {
    Null,
    Bool(bool),
    Number(JsonNumber),
    Text(String),
    Array(Vec<Json>),
    /// Members by name, each name once.
    Object(Vec<(String, Json)>),
}

/// The first of the first `n` members named `key`.
pub open spec fn member_upto(fields: Seq<(String, Json)>, key: Seq<char>, n: int) -> Option<Json>
    decreases n,
{
    if n <= 0 {
        None
    } else {
        match member_upto(fields, key, n - 1) {
            Some(v) => Some(v),
            None => if fields[n - 1].0@ == key {
                Some(fields[n - 1].1)
            } else {
                None
            },
        }
    }
}

/// The member `key` of an object; nothing for any other value
/// (`Value::get`).
pub open spec fn member(v: Json, key: Seq<char>) -> Option<Json> {
    match v {
        Json::Object(fields) => member_upto(fields@, key, fields@.len() as int),
        _ => None,
    }
}

proof fn lemma_member_stays(fields: Seq<(String, Json)>, key: Seq<char>, n: int, m: int)
    requires
        0 < n <= m,
        member_upto(fields, key, n) is Some,
    ensures
        member_upto(fields, key, m) == member_upto(fields, key, n),
    decreases m - n,
{
    if m > n {
        lemma_member_stays(fields, key, n, m - 1);
    }
}

/// The member `key` of `v`, if `v` is an object that has one.
pub fn get<'a>(v: &'a Json, key: &str) -> (r: Option<&'a Json>)
    ensures
        match r {
            Some(x) => member(*v, key@) == Some(*x),
            None => member(*v, key@) is None,
        },
{
    match v {
        Json::Object(fields) => {
            let wanted = owned(key);
            let mut i: usize = 0;
            while i < fields.len()
                invariant
                    wanted@ == key@,
                    *v == Json::Object(*fields),
                    i <= fields@.len(),
                    member_upto(fields@, key@, i as int) is None,
                decreases fields.len() - i,
            {
                if fields[i].0 == wanted {
                    proof {
                        lemma_member_stays(fields@, key@, i + 1, fields@.len() as int);
                        assert(member(*v, key@) == member_upto(fields@, key@, fields@.len() as int));
                        assert(member_upto(fields@, key@, i + 1) == Some(fields@[i as int].1));
                    }
                    return Some(&fields[i].1);
                }
                i = i + 1;
            }
            None
        },
        _ => None,
    }
}

/// What one question cost, as the candidate reported it. `None` means "not
/// reported", never zero.
#[derive(Debug, Clone, Copy, PartialEq, Eq, Structural)]
pub struct Usage {
    pub input: Option<u64>,
    pub output: Option<u64>,
}

impl Default for Usage {
    fn default() -> (u: Usage)
        ensures
            u == (Usage { input: None, output: None }),
    {
        Usage { input: None, output: None }
    }
}

/// A count under one of two names: the current one wins when both are
/// present, even when what it holds is no count.
pub open spec fn count_of(o: Json, current: Seq<char>, legacy: Seq<char>) -> Option<u64> {
    let v = match member(o, current) {
        Some(v) => Some(v),
        None => member(o, legacy),
    };
    match v {
        Some(Json::Number(n)) => n.as_u64,
        _ => None,
    }
}

/// The token counts a candidate reports, if it reports any, where its
/// configuration says they sit.
pub open spec fn usage_of(body: Json, cand: Candidate) -> Usage {
    match cand.usage_at {
        None => Usage { input: None, output: None },
        Some(k) => match member(body, k@) {
            None => Usage { input: None, output: None },
            Some(o) => Usage {
                input: count_of(o, "input_tokens"@, "prompt_tokens"@),
                output: count_of(o, "output_tokens"@, "completion_tokens"@),
            },
        },
    }
}

/// Token counts are read where the candidate's `usage_at` says, and only
/// there. Under the current name (`input_tokens`, `output_tokens`) a count
/// wins over the deprecated one (`prompt_tokens`, `completion_tokens`),
/// which is read only when the current name is absent; with no `usage_at`,
/// nothing is reported.
pub proof fn law_the_current_name_wins(body: Json, cand: Candidate, o: Json, current: JsonNumber, legacy: JsonNumber)
    ensures
        cand.usage_at is None ==> usage_of(body, cand) == (Usage { input: None, output: None }),
        cand.usage_at matches Some(k) && member(body, k@) == Some(o) ==> {
            &&& member(o, "input_tokens"@) == Some(Json::Number(current)) ==> usage_of(body, cand).input
                == current.as_u64
            &&& member(o, "input_tokens"@) is None && member(o, "prompt_tokens"@) == Some(
                Json::Number(legacy),
            ) ==> usage_of(body, cand).input == legacy.as_u64
            &&& member(o, "output_tokens"@) == Some(Json::Number(current)) ==> usage_of(body, cand).output
                == current.as_u64
            &&& member(o, "output_tokens"@) is None && member(o, "completion_tokens"@) == Some(
                Json::Number(legacy),
            ) ==> usage_of(body, cand).output == legacy.as_u64
        },
{
}

fn count(o: &Json, current: &str, legacy: &str) -> (r: Option<u64>)
    ensures
        r == count_of(*o, current@, legacy@),
{
    let v = match get(o, current) {
        Some(v) => Some(v),
        None => get(o, legacy),
    };
    match v {
        Some(Json::Number(n)) => n.as_u64,
        _ => None,
    }
}

/// Reads the token counts a candidate reports. `input_tokens` and
/// `output_tokens` are the current OpenTelemetry names; `prompt_tokens` and
/// `completion_tokens` their deprecated predecessors. With no `usage_at`,
/// nothing is looked for: guessing where numbers live is inventing them.
pub fn usage_from(body: &Json, cand: &Candidate) -> (u: Usage)
    ensures
        u == usage_of(*body, *cand),
{
    match &cand.usage_at {
        None => Usage { input: None, output: None },
        Some(k) => match get(body, k.as_str()) {
            None => Usage { input: None, output: None },
            Some(o) => Usage {
                input: count(o, "input_tokens", "prompt_tokens"),
                output: count(o, "output_tokens", "completion_tokens"),
            },
        },
    }
}

/// One result, reduced to what a judge can use.
#[derive(Debug, Clone, PartialEq)]
pub struct Hit {
    pub id: String,
    /// Every numeric member this result carried, by name, each number in
    /// its decimal writing.
    pub numbers: Vec<(String, String)>,
}

/// A candidate's whole answer: what it found, and what it says it cost.
#[derive(Debug, Clone, PartialEq)]
pub struct Answer {
    pub hits: Vec<Hit>,
    pub usage: Usage,
}

pub open spec fn pairs_view(v: Seq<(String, String)>) -> Seq<(Seq<char>, Seq<char>)> {
    v.map_values(|p: (String, String)| (p.0@, p.1@))
}

/// The numeric members of the first `n` members, by name.
pub open spec fn numbers_upto(fields: Seq<(String, Json)>, n: int) -> Seq<(Seq<char>, Seq<char>)>
    decreases n,
{
    if n <= 0 {
        seq![]
    } else {
        match fields[n - 1].1 {
            Json::Number(x) => numbers_upto(fields, n - 1).push((fields[n - 1].0@, x.text@)),
            _ => numbers_upto(fields, n - 1),
        }
    }
}

/// The numeric members of a result, by name; none when it is no object.
pub open spec fn numbers_of(item: Json) -> Seq<(Seq<char>, Seq<char>)> {
    match item {
        Json::Object(fields) => numbers_upto(fields@, fields@.len() as int),
        _ => seq![],
    }
}

/// The identifier of a result: its member `id_field`, when that is a string.
pub open spec fn id_of(item: Json, id_field: Seq<char>) -> Option<Seq<char>> {
    match member(item, id_field) {
        Some(Json::Text(s)) => Some(s@),
        _ => None,
    }
}

/// The first of the first `n` results that carries no identifier.
pub open spec fn first_nameless(items: Seq<Json>, id_field: Seq<char>, n: int) -> Option<int>
    decreases n,
{
    if n <= 0 {
        None
    } else {
        match first_nameless(items, id_field, n - 1) {
            Some(i) => Some(i),
            None => if id_of(items[n - 1], id_field) is None {
                Some(n - 1)
            } else {
                None
            },
        }
    }
}

proof fn lemma_first_nameless_stays(items: Seq<Json>, id_field: Seq<char>, n: int, m: int)
    requires
        0 < n <= m,
        first_nameless(items, id_field, n) is Some,
    ensures
        first_nameless(items, id_field, m) == first_nameless(items, id_field, n),
    decreases m - n,
{
    if m > n {
        lemma_first_nameless_stays(items, id_field, n, m - 1);
    }
}

/// Where the list of results sits in an answer.
pub open spec fn results_of(body: Json, cand: Candidate) -> Option<Json> {
    match cand.results_at {
        Some(k) => member(body, k@),
        None => Some(body),
    }
}

/// `hit` is what a judge keeps of `item`.
pub open spec fn is_hit_of(hit: Hit, item: Json, id_field: Seq<char>) -> bool {
    &&& id_of(item, id_field) == Some(hit.id@)
    &&& pairs_view(hit.numbers@) == numbers_of(item)
}

/// Why an answer could not be read as a list of results.
pub open spec fn shape_refusal(body: Json, cand: Candidate) -> Seq<char> {
    match results_of(body, cand) {
        None => "the answer has no `"@ + cand.results_at->0@ + "` field"@,
        Some(Json::Array(items)) => "a result carries no `"@ + cand.id_field@ + "` string"@,
        Some(_) => "the answer is not a list of results"@,
    }
}

/// The answer has the shape the candidate's configuration promises: a
/// list of results where it says, each with a string identifier.
pub open spec fn well_shaped(body: Json, cand: Candidate) -> bool {
    match results_of(body, cand) {
        Some(Json::Array(items)) => first_nameless(items@, cand.id_field@, items@.len() as int) is None,
        _ => false,
    }
}

fn numbers(item: &Json) -> (v: Vec<(String, String)>)
    ensures
        pairs_view(v@) == numbers_of(*item),
{
    let mut v: Vec<(String, String)> = Vec::new();
    match item {
        Json::Object(fields) => {
            let mut i: usize = 0;
            assert(pairs_view(v@) =~= Seq::<(Seq<char>, Seq<char>)>::empty());
            while i < fields.len()
                invariant
                    i <= fields@.len(),
                    pairs_view(v@) == numbers_upto(fields@, i as int),
                decreases fields.len() - i,
            {
                match &fields[i].1 {
                    Json::Number(x) => {
                        let ghost before = pairs_view(v@);
                        v.push((fields[i].0.clone(), x.text.clone()));
                        assert(pairs_view(v@) =~= before.push((fields@[i as int].0@, x.text@)));
                    },
                    _ => {},
                }
                i = i + 1;
            }
        },
        _ => {
            assert(pairs_view(v@) =~= Seq::<(Seq<char>, Seq<char>)>::empty());
        },
    }
    v
}

/// Turns a candidate's answer into hits. Anything that is not a list of
/// results with an identifier is a configuration mistake, reported as one
/// rather than counted as "no result": a service that answers with the
/// wrong shape would otherwise score zero and look like a retrieval
/// failure.
pub fn hits_from(body: &Json, cand: &Candidate) -> (r: Result<Vec<Hit>, String>)
    ensures
        match r {
            Ok(hits) => {
                &&& well_shaped(*body, *cand)
                &&& results_of(*body, *cand) matches Some(Json::Array(items))
                &&& hits@.len() == items@.len()
                &&& forall|i: int|
                    0 <= i < hits@.len() ==> is_hit_of(#[trigger] hits@[i], items@[i], cand.id_field@)
            },
            Err(e) => !well_shaped(*body, *cand) && e@ == shape_refusal(*body, *cand),
        },
{
    let array = match &cand.results_at {
        Some(key) => match get(body, key.as_str()) {
            Some(a) => a,
            None => {
                let mut e = owned("the answer has no `");
                append(&mut e, key.as_str());
                append(&mut e, "` field");
                return Err(e);
            },
        },
        None => body,
    };
    let items = match array {
        Json::Array(items) => items,
        _ => {
            return Err(owned("the answer is not a list of results"));
        },
    };
    let mut hits: Vec<Hit> = Vec::new();
    let mut i: usize = 0;
    while i < items.len()
        invariant
            results_of(*body, *cand) == Some(Json::Array(*items)),
            i <= items@.len(),
            hits@.len() == i,
            first_nameless(items@, cand.id_field@, i as int) is None,
            forall|t: int| 0 <= t < i ==> is_hit_of(#[trigger] hits@[t], items@[t], cand.id_field@),
        decreases items.len() - i,
    {
        let item = &items[i];
        let id = match get(item, cand.id_field.as_str()) {
            Some(Json::Text(s)) => s.clone(),
            _ => {
                proof {
                    lemma_first_nameless_stays(items@, cand.id_field@, i + 1, items@.len() as int);
                }
                let mut e = owned("a result carries no `");
                append(&mut e, cand.id_field.as_str());
                append(&mut e, "` string");
                return Err(e);
            },
        };
        let n = numbers(item);
        hits.push(Hit { id, numbers: n });
        i = i + 1;
    }
    Ok(hits)
}

/// The identifiers of the hits, in order.
pub open spec fn ids_of(hits: Seq<Hit>) -> Seq<Seq<char>> {
    hits.map_values(|h: Hit| h.id@)
}

/// `o` is what is kept of `answer` to `case`: where the first expected
/// answer landed among every id that came back, the numbers the top result
/// carried, and the tokens reported.
pub open spec fn is_outcome_of(o: Outcome, case: Case, answer: Answer) -> bool {
    let ids = ids_of(answer.hits@);
    &&& o.question@ == case.question@
    &&& o.gold.deep_view() == case.gold.deep_view()
    &&& o.returned.deep_view() == ids
    &&& is_rank_of(o.rank, ids, case.gold.deep_view())
    &&& pairs_view(o.top_numbers@) == (if answer.hits@.len() > 0 {
        pairs_view(answer.hits@[0].numbers@)
    } else {
        seq![]
    })
    &&& o.input_tokens == answer.usage.input
    &&& o.output_tokens == answer.usage.output
}

fn clone_pairs(v: &Vec<(String, String)>) -> (c: Vec<(String, String)>)
    ensures
        pairs_view(c@) == pairs_view(v@),
{
    let mut c: Vec<(String, String)> = Vec::new();
    let mut i: usize = 0;
    while i < v.len()
        invariant
            i <= v@.len(),
            pairs_view(c@) == pairs_view(v@).subrange(0, i as int),
        decreases v.len() - i,
    {
        let ghost before = pairs_view(c@);
        c.push((v[i].0.clone(), v[i].1.clone()));
        assert(pairs_view(c@) =~= pairs_view(v@).subrange(0, i + 1)) by {
            assert(pairs_view(c@) =~= before.push((v@[i as int].0@, v@[i as int].1@)));
        }
        i = i + 1;
    }
    assert(pairs_view(v@).subrange(0, v@.len() as int) =~= pairs_view(v@));
    c
}

fn clone_strings(v: &Vec<String>) -> (c: Vec<String>)
    ensures
        c.deep_view() == v.deep_view(),
{
    let mut c: Vec<String> = Vec::new();
    let mut i: usize = 0;
    while i < v.len()
        invariant
            i <= v@.len(),
            c.deep_view() == v.deep_view().subrange(0, i as int),
        decreases v.len() - i,
    {
        let ghost before = c.deep_view();
        c.push(v[i].clone());
        assert(c.deep_view() =~= v.deep_view().subrange(0, i + 1)) by {
            assert(c.deep_view() =~= before.push(v@[i as int]@));
        }
        i = i + 1;
    }
    assert(v.deep_view().subrange(0, v@.len() as int) =~= v.deep_view());
    c
}

/// What is kept of one answer to one case.
pub fn outcome_of(case: &Case, answer: Answer) -> (o: Outcome)
    ensures
        is_outcome_of(o, *case, answer),
{
    let mut returned: Vec<String> = Vec::new();
    let mut i: usize = 0;
    while i < answer.hits.len()
        invariant
            i <= answer.hits@.len(),
            returned.deep_view() == ids_of(answer.hits@).subrange(0, i as int),
        decreases answer.hits.len() - i,
    {
        let ghost before = returned.deep_view();
        returned.push(answer.hits[i].id.clone());
        assert(returned.deep_view() =~= ids_of(answer.hits@).subrange(0, i + 1)) by {
            assert(returned.deep_view() =~= before.push(answer.hits@[i as int].id@));
        }
        i = i + 1;
    }
    assert(ids_of(answer.hits@).subrange(0, answer.hits@.len() as int) =~= ids_of(answer.hits@));
    let gold = clone_strings(&case.gold);
    let rank = rank_of(returned.as_slice(), gold.as_slice());
    let top_numbers = if answer.hits.len() > 0 {
        clone_pairs(&answer.hits[0].numbers)
    } else {
        let v: Vec<(String, String)> = Vec::new();
        assert(pairs_view(v@) =~= Seq::<(Seq<char>, Seq<char>)>::empty());
        v
    };
    Outcome {
        question: case.question.clone(),
        gold,
        rank,
        returned,
        top_numbers,
        input_tokens: answer.usage.input,
        output_tokens: answer.usage.output,
    }
}

/// `outcomes` is what a replay keeps of `answers`: one outcome per answer,
/// the `i`-th that of the `i`-th case of the corpus, in corpus order.
pub open spec fn replays(outcomes: Seq<Outcome>, cases: Seq<Case>, answers: Seq<Answer>) -> bool {
    &&& outcomes.len() == answers.len()
    &&& answers.len() <= cases.len()
    &&& forall|i: int| 0 <= i < outcomes.len() ==> is_outcome_of(#[trigger] outcomes[i], cases[i], answers[i])
}

/// A replay that has asked every case (`next_url` gives nothing more)
/// holds exactly one outcome per case of the corpus, in corpus order, each
/// what was kept of the answer to that case: its question and golds, every
/// id that came back, the rank of the first expected one, the numbers of
/// the top result and the tokens reported.
pub proof fn law_a_finished_replay_holds_every_case(outcomes: Seq<Outcome>, cases: Seq<Case>, answers: Seq<Answer>)
    requires
        replays(outcomes, cases, answers),
        outcomes.len() >= cases.len(),
    ensures
        outcomes.len() == cases.len(),
        answers.len() == cases.len(),
        forall|i: int| 0 <= i < cases.len() ==> is_outcome_of(#[trigger] outcomes[i], cases[i], answers[i]),
{
}

/// The URL a replay asks after `asked` cases, for `k` results: that of the
/// next case's question, or nothing once every case has been asked.
pub open spec fn url_after(cases: Seq<Case>, url: Seq<char>, k: nat, asked: nat) -> Option<Seq<char>> {
    if asked < cases.len() {
        Some(request_url_of(url, encode_utf8(cases[asked as int].question@), k))
    } else {
        None
    }
}

/// A replay asks every case once, in corpus order: from `Replay::new`,
/// after `j` answers were received, it holds `j` outcomes, and `next_url`
/// gives the URL of case `j` while there is one, and nothing exactly once
/// the last case was answered.
pub proof fn law_the_replay_asks_every_case_in_order(
    outcomes: Seq<Outcome>,
    cases: Seq<Case>,
    answers: Seq<Answer>,
    url: Seq<char>,
    k: nat,
)
    requires
        replays(outcomes, cases, answers),
    ensures
        outcomes.len() == answers.len() <= cases.len(),
        answers.len() < cases.len() ==> url_after(cases, url, k, outcomes.len()) == Some(
            request_url_of(url, encode_utf8(cases[answers.len() as int].question@), k),
        ),
        url_after(cases, url, k, outcomes.len()) is None <==> answers.len() == cases.len(),
{
}

/// Why a replay stopped: which case, out of how many, which question, and
/// what went wrong.
pub open spec fn failure_message(i: nat, total: nat, question: Seq<char>, why: Seq<char>) -> Seq<char> {
    "case "@ + decimal(i + 1) + "/"@ + decimal(total) + " ("@ + debug_quoted(question) + "): "@ + why
}

/// A replay in progress: one outcome per case asked so far, in corpus order.
#[derive(Debug, Clone, PartialEq)]
pub struct Replay {
    pub outcomes: Vec<Outcome>,
}

impl Replay {
    /// A replay that has asked nothing yet.
    pub fn new() -> (r: Replay)
        ensures
            r.outcomes@.len() == 0,
            forall|cases: Seq<Case>| #[trigger] replays(r.outcomes@, cases, seq![]),
    {
        Replay { outcomes: Vec::new() }
    }

    /// The URL of the next question to ask for `k` results, or `None` when
    /// every case has been asked.
    pub fn next_url(&self, corpus: &Corpus, cand: &Candidate, k: usize) -> (u: Option<String>)
        ensures
            match u {
                Some(url) => url_after(corpus.cases@, cand.url@, k as nat, self.outcomes@.len()) == Some(url@),
                None => url_after(corpus.cases@, cand.url@, k as nat, self.outcomes@.len()) is None,
            },
    {
        let i = self.outcomes.len();
        if i < corpus.cases.len() {
            Some(cand.request_url(corpus.cases[i].question.as_str(), k))
        } else {
            None
        }
    }

    /// Takes the answer to the next case. A failed case stops everything:
    /// a record missing a third of its cases still computes an average, and
    /// that average looks exactly like a measurement. The error says which
    /// case and why; nothing is kept of it.
    pub fn receive(&mut self, corpus: &Corpus, answer: Result<Answer, String>) -> (r: Result<(), String>)
        requires
            old(self).outcomes@.len() < corpus.cases@.len(),
        ensures
            match answer {
                Ok(a) => {
                    &&& r is Ok
                    &&& final(self).outcomes@.len() == old(self).outcomes@.len() + 1
                    &&& final(self).outcomes@.subrange(0, old(self).outcomes@.len() as int)
                        == old(self).outcomes@
                    &&& is_outcome_of(
                        final(self).outcomes@.last(),
                        corpus.cases@[old(self).outcomes@.len() as int],
                        a,
                    )
                    &&& forall|answers: Seq<Answer>|
                        #[trigger] replays(old(self).outcomes@, corpus.cases@, answers) ==> replays(
                            final(self).outcomes@,
                            corpus.cases@,
                            answers.push(a),
                        )
                },
                Err(why) => {
                    &&& final(self).outcomes@ == old(self).outcomes@
                    &&& r matches Err(e) && e@ == failure_message(
                        old(self).outcomes@.len() as nat,
                        corpus.cases@.len() as nat,
                        corpus.cases@[old(self).outcomes@.len() as int].question@,
                        why@,
                    )
                },
            },
    {
        let i = self.outcomes.len();
        let total = corpus.cases.len();
        let case = &corpus.cases[i];
        match answer {
            Ok(a) => {
                let o = outcome_of(case, a);
                self.outcomes.push(o);
                assert(self.outcomes@.subrange(0, i as int) =~= old(self).outcomes@);
                Ok(())
            },
            Err(why) => {
                let mut e = owned("case ");
                push_decimal(&mut e, (i + 1) as u64);
                append(&mut e, "/");
                push_decimal(&mut e, total as u64);
                append(&mut e, " (");
                let q = quoted(case.question.as_str());
                append(&mut e, q.as_str());
                append(&mut e, "): ");
                append(&mut e, why.as_str());
                Err(e)
            },
        }
    }
}

} // verus!
