//! The trace comparator: two traces agree when they hold as many events, and
//! event by event the types are the same, the times are close, and the
//! numbers that both payloads hold under one key are close.
//!
//! Whether two numbers are close is arithmetic on their decimal texts, which
//! this crate does not do. The comparator states what has to be compared
//! (`checks`), takes a verdict on each, and judges the traces from the
//! verdicts (`run`).

use crate::json::entry_index;
use crate::json::entry_value;
use crate::json::field;
use crate::json::find_entry;
use crate::json::lemma_entry_index;
use crate::json::Json;
use crate::text::decimal;
use crate::text::decimal_text;
use crate::text::same_text;
use crate::trace::text_field;
use crate::trace::text_of;
use crate::trace::Trace;
use vstd::prelude::*;
use vstd::string::StringExecFns;

verus! {

/// What came of comparing two numbers.
#[derive(Clone, Copy, Debug, PartialEq, Eq, Structural)]
pub enum Verdict {
    /// The two are within the tolerance of each other, or a payload number
    /// is not finite.
    Within,
    /// The two differ by more than the tolerance.
    Exceeds,
    /// The text of the gold side is not a number.
    GoldUnreadable,
    /// The text of the test side is not a number, or is not there.
    TestUnreadable,
}

/// A comparison of numbers that the caller is to make, on their texts.
#[derive(Debug, PartialEq, Eq)]
pub enum Check {
    /// The times of a pair of events: the text under `t_s` of the gold
    /// event, and that of the test event if it has one.
    Time { gold_time: String, test_time: Option<String> },
    /// The numbers that both payloads hold under `key`.
    Value { key: String, gold_number: String, test_number: String },
}

/// A check, with its texts as sequences of characters.
pub enum CheckView {
    Time { gold_time: Seq<char>, test_time: Option<Seq<char>> },
    Value { key: Seq<char>, gold_number: Seq<char>, test_number: Seq<char> },
}

impl View for Check {
    type V = CheckView;

    open spec fn view(&self) -> CheckView {
        match *self {
            Check::Time { gold_time, test_time } => CheckView::Time {
                gold_time: gold_time@,
                test_time: match test_time {
                    Some(text) => Some(text@),
                    None => None,
                },
            },
            Check::Value { key, gold_number, test_number } => CheckView::Value {
                key: key@,
                gold_number: gold_number@,
                test_number: test_number@,
            },
        }
    }
}

/// The first disagreement of two traces.
#[derive(Clone, Copy, Debug, PartialEq, Eq, Structural)]
pub enum Mismatch {
    /// The traces hold different numbers of events.
    Length { gold: usize, test: usize },
    /// The events at `index` are of different types.
    Kind { index: usize },
    /// An event at `index` has no time that is a number: the gold one, or
    /// else the test one.
    MissingTime { index: usize, in_gold: bool },
    /// The times of the events at `index` differ by more than the tolerance.
    Time { index: usize },
    /// The numbers of check `check` of the events at `index` differ by more
    /// than the tolerance.
    Payload { index: usize, check: usize },
}

/// What two traces that agree hold: the number of events of each, and the
/// number of meta records of each.
#[derive(Clone, Copy, Debug, PartialEq, Eq, Structural)]
pub struct Summary {
    pub events: usize,
    pub meta_gold: usize,
    pub meta_test: usize,
}

/// The type of an event: the text under `type`, and `?` where there is none.
pub open spec fn kind_of(record: Json) -> Seq<char> {
    match text_field(record, "type"@) {
        Some(kind) => kind,
        None => "?"@,
    }
}

/// The text of the time of an event: what stands under `t_s`, where that is
/// a number or a string.
pub open spec fn time_of(record: Json) -> Option<Seq<char>> {
    match field(record, "t_s"@) {
        Some(Json::Number(n)) => Some(n.text@),
        Some(Json::Text(s)) => Some(s@),
        _ => None,
    }
}

/// The entries of the payload of an event, where it has an object under
/// `payload`.
pub open spec fn payload_of(record: Json) -> Option<Seq<(String, Json)>> {
    match field(record, "payload"@) {
        Some(Json::Object(entries)) => Some(entries@),
        _ => None,
    }
}

/// The text of the number under `key`, where the entries have a number
/// there.
pub open spec fn number_under(entries: Seq<(String, Json)>, key: Seq<char>) -> Option<Seq<char>> {
    match entry_value(entries, key) {
        Some(Json::Number(n)) => Some(n.text@),
        _ => None,
    }
}

/// The check that entry `i` of the gold payload calls for: one on the
/// numbers under its key, where it is the first entry with that key and both
/// payloads hold a number there.
pub open spec fn value_check(gold: Seq<(String, Json)>, test: Seq<(String, Json)>, i: int) -> Option<
    CheckView,
> {
    let key = gold[i].0@;
    if entry_index(gold, key, 0) == Some(i) {
        match (number_under(gold, key), number_under(test, key)) {
            (Some(a), Some(b)) => Some(CheckView::Value { key, gold_number: a, test_number: b }),
            _ => None,
        }
    } else {
        None
    }
}

/// The checks that the first `n` entries of the gold payload call for, in
/// the order of the entries.
pub open spec fn value_checks(gold: Seq<(String, Json)>, test: Seq<(String, Json)>, n: int) -> Seq<
    CheckView,
>
    decreases n,
{
    if n <= 0 {
        Seq::empty()
    } else {
        let before = value_checks(gold, test, n - 1);
        match value_check(gold, test, n - 1) {
            Some(check) => before.push(check),
            None => before,
        }
    }
}

/// The checks that a pair of events calls for: first the one on their times,
/// where the gold event has a time, then those on their payloads, where both
/// have one.
pub open spec fn checks_for(gold: Json, test: Json) -> Seq<CheckView> {
    let time = match time_of(gold) {
        Some(text) => seq![CheckView::Time { gold_time: text, test_time: time_of(test) }],
        None => Seq::empty(),
    };
    let values = match (payload_of(gold), payload_of(test)) {
        (Some(g), Some(t)) => value_checks(g, t, g.len() as int),
        _ => Seq::empty(),
    };
    time + values
}

/// The checks as views.
pub open spec fn views(checks: Seq<Check>) -> Seq<CheckView> {
    checks.map_values(|c: Check| c@)
}

/// The verdict on the times of a pair of events that counts: where the test
/// event has no time, the gold text is unreadable or else the test side is.
pub open spec fn time_verdict(test: Json, answer: Verdict) -> Verdict {
    if time_of(test) is None && answer != Verdict::GoldUnreadable {
        Verdict::TestUnreadable
    } else {
        answer
    }
}

/// The index of the first verdict from `from` on that is `Exceeds`.
pub open spec fn first_exceeds(answers: Seq<Verdict>, from: int) -> Option<int>
    decreases answers.len() - from,
{
    if from < 0 || from >= answers.len() {
        None
    } else if answers[from] == Verdict::Exceeds {
        Some(from)
    } else {
        first_exceeds(answers, from + 1)
    }
}

/// How the events at `index` disagree, if they do, given the verdicts on
/// their checks: in type; else in that the gold event has no time; else by
/// the verdict on their times; else by the first payload number that exceeds
/// the tolerance.
pub open spec fn failure_at(gold: Json, test: Json, answers: Seq<Verdict>, index: usize) -> Option<
    Mismatch,
> {
    if kind_of(gold) != kind_of(test) {
        Some(Mismatch::Kind { index })
    } else if time_of(gold) is None {
        Some(Mismatch::MissingTime { index, in_gold: true })
    } else {
        match time_verdict(test, answers[0]) {
            Verdict::GoldUnreadable => Some(Mismatch::MissingTime { index, in_gold: true }),
            Verdict::TestUnreadable => Some(Mismatch::MissingTime { index, in_gold: false }),
            Verdict::Exceeds => Some(Mismatch::Time { index }),
            Verdict::Within => match first_exceeds(answers, 1) {
                Some(k) => Some(Mismatch::Payload { index, check: k as usize }),
                None => None,
            },
        }
    }
}

/// The first disagreement among the first `n` pairs of events.
pub open spec fn first_failure(
    gold: Seq<Json>,
    test: Seq<Json>,
    verdicts: Seq<Vec<Verdict>>,
    n: int,
) -> Option<Mismatch>
    decreases n,
{
    if n <= 0 {
        None
    } else {
        match first_failure(gold, test, verdicts, n - 1) {
            Some(mismatch) => Some(mismatch),
            None => failure_at(gold[n - 1], test[n - 1], verdicts[n - 1]@, (n - 1) as usize),
        }
    }
}

/// There is a list of verdicts for each pair of events, with a verdict for
/// each of its checks.
pub open spec fn answers_all(verdicts: Seq<Vec<Verdict>>, gold: Seq<Json>, test: Seq<Json>) -> bool {
    &&& verdicts.len() == gold.len()
    &&& forall|i: int|
        0 <= i < gold.len() && i < test.len() ==> (#[trigger] verdicts[i])@.len() == checks_for(
            gold[i],
            test[i],
        ).len()
}

/// What the comparison of two traces comes to, given the verdicts.
pub open spec fn outcome(gold: Trace, test: Trace, verdicts: Seq<Vec<Verdict>>) -> Result<
    Summary,
    Mismatch,
> {
    if gold.events@.len() != test.events@.len() {
        Err(Mismatch::Length { gold: gold.events@.len() as usize, test: test.events@.len() as usize })
    } else {
        match first_failure(gold.events@, test.events@, verdicts, gold.events@.len() as int) {
            Some(mismatch) => Err(mismatch),
            None => Ok(
                Summary {
                    events: gold.events@.len() as usize,
                    meta_gold: gold.metas@.len() as usize,
                    meta_test: test.metas@.len() as usize,
                },
            ),
        }
    }
}

/// The text of the time of an event.
pub fn time_text(record: &Json) -> (r: Option<&String>)
    ensures
        match r {
            Some(text) => time_of(*record) == Some(text@),
            None => time_of(*record) is None,
        },
{
    match record.get("t_s") {
        Some(Json::Number(n)) => Some(&n.text),
        Some(Json::Text(s)) => Some(s),
        _ => None,
    }
}

/// The entries of the payload of an event.
pub fn payload(record: &Json) -> (r: Option<&Vec<(String, Json)>>)
    ensures
        match r {
            Some(entries) => payload_of(*record) == Some(entries@),
            None => payload_of(*record) is None,
        },
{
    match record.get("payload") {
        Some(Json::Object(entries)) => Some(entries),
        _ => None,
    }
}

/// The text of the number under `key`.
pub fn number_text<'a>(entries: &'a Vec<(String, Json)>, key: &str) -> (r: Option<&'a String>)
    ensures
        match r {
            Some(text) => number_under(entries@, key@) == Some(text@),
            None => number_under(entries@, key@) is None,
        },
{
    match find_entry(entries, key) {
        Some(i) => match &entries[i].1 {
            Json::Number(n) => Some(&n.text),
            _ => None,
        },
        None => None,
    }
}

/// Whether two events are of the same type.
pub fn same_kind(gold: &Json, test: &Json) -> (r: bool)
    ensures
        r == (kind_of(*gold) == kind_of(*test)),
{
    match (text_of(gold, "type"), text_of(test, "type")) {
        (Some(a), Some(b)) => same_text(a.as_str(), b.as_str()),
        (Some(a), None) => same_text(a.as_str(), "?"),
        (None, Some(b)) => same_text("?", b.as_str()),
        (None, None) => true,
    }
}

/// Lists the checks that a pair of events calls for.
pub fn checks_of_pair(gold: &Json, test: &Json) -> (checks: Vec<Check>)
    ensures
        views(checks@) == checks_for(*gold, *test),
{
    let mut checks: Vec<Check> = Vec::new();
    match time_text(gold) {
        Some(text) => {
            let other = match time_text(test) {
                Some(found) => Some(found.clone()),
                None => None,
            };
            checks.push(Check::Time { gold_time: text.clone(), test_time: other });
        },
        None => {},
    }
    let ghost time = views(checks@);
    match (payload(gold), payload(test)) {
        (Some(g), Some(t)) => {
            let mut i: usize = 0;
            assert(views(checks@) =~= time + value_checks(g@, t@, 0));
            while i < g.len()
                invariant
                    0 <= i <= g.len(),
                    views(checks@) == time + value_checks(g@, t@, i as int),
                decreases g.len() - i,
            {
                let key = &g[i].0;
                let ghost before = checks@;
                let first = match find_entry(g, key.as_str()) {
                    Some(k) => k == i,
                    None => false,
                };
                if first {
                    match (number_text(g, key.as_str()), number_text(t, key.as_str())) {
                        (Some(a), Some(b)) => {
                            checks.push(
                                Check::Value {
                                    key: key.clone(),
                                    gold_number: a.clone(),
                                    test_number: b.clone(),
                                },
                            );
                            assert(views(checks@) =~= views(before).push(
                                value_check(g@, t@, i as int)->0,
                            ));
                        },
                        _ => {},
                    }
                }
                assert(views(checks@) =~= time + value_checks(g@, t@, i + 1));
                i += 1;
            }
        },
        _ => {
            assert(views(checks@) =~= time + Seq::<CheckView>::empty());
        },
    }
    checks
}

/// Lists, for each pair of events of two traces, the checks that it calls
/// for. Where one trace holds more events than the other, the events without
/// a partner are left out.
pub fn checks(gold: &Trace, test: &Trace) -> (all: Vec<Vec<Check>>)
    ensures
        all@.len() == if gold.events@.len() <= test.events@.len() {
            gold.events@.len()
        } else {
            test.events@.len()
        },
        forall|i: int|
            0 <= i < all@.len() ==> views((#[trigger] all@[i])@) == checks_for(
                gold.events@[i],
                test.events@[i],
            ),
{
    let n = if gold.events.len() <= test.events.len() {
        gold.events.len()
    } else {
        test.events.len()
    };
    let mut all: Vec<Vec<Check>> = Vec::new();
    let mut i: usize = 0;
    while i < n
        invariant
            0 <= i <= n,
            n <= gold.events@.len(),
            n <= test.events@.len(),
            all@.len() == i,
            forall|k: int|
                0 <= k < i ==> views((#[trigger] all@[k])@) == checks_for(
                    gold.events@[k],
                    test.events@[k],
                ),
        decreases n - i,
    {
        all.push(checks_of_pair(&gold.events[i], &test.events[i]));
        i += 1;
    }
    all
}

/// Judges a pair of events from the verdicts on its checks.
pub fn judge_pair(gold: &Json, test: &Json, answers: &Vec<Verdict>, index: usize) -> (r: Option<
    Mismatch,
>)
    requires
        answers@.len() == checks_for(*gold, *test).len(),
    ensures
        r == failure_at(*gold, *test, answers@, index),
{
    if !same_kind(gold, test) {
        return Some(Mismatch::Kind { index });
    }
    if time_text(gold).is_none() {
        return Some(Mismatch::MissingTime { index, in_gold: true });
    }
    let answer = answers[0];
    let verdict = if time_text(test).is_none() {
        match answer {
            Verdict::GoldUnreadable => Verdict::GoldUnreadable,
            _ => Verdict::TestUnreadable,
        }
    } else {
        answer
    };
    match verdict {
        Verdict::GoldUnreadable => Some(Mismatch::MissingTime { index, in_gold: true }),
        Verdict::TestUnreadable => Some(Mismatch::MissingTime { index, in_gold: false }),
        Verdict::Exceeds => Some(Mismatch::Time { index }),
        Verdict::Within => {
            let mut k: usize = 1;
            while k < answers.len()
                invariant
                    1 <= k <= answers.len(),
                    kind_of(*gold) == kind_of(*test),
                    time_of(*gold) is Some,
                    time_verdict(*test, answers@[0]) == Verdict::Within,
                    first_exceeds(answers@, 1) == first_exceeds(answers@, k as int),
                decreases answers.len() - k,
            {
                match answers[k] {
                    Verdict::Exceeds => {
                        assert(first_exceeds(answers@, k as int) == Some(k as int));
                        return Some(Mismatch::Payload { index, check: k });
                    },
                    _ => {},
                }
                k += 1;
            }
            None
        },
    }
}

/// Compares two traces, given the verdicts on their checks.
///
/// `verdicts` holds, for each pair of events, the verdicts on the checks
/// that `checks` lists for it, in that order. The traces disagree when they
/// hold different numbers of events, and else at the first pair of events
/// that disagrees. Where they agree, the result counts their events and
/// their meta records.
pub fn run(gold: &Trace, test: &Trace, verdicts: &Vec<Vec<Verdict>>) -> (res: Result<
    Summary,
    Mismatch,
>)
    requires
        gold.events@.len() == test.events@.len() ==> answers_all(
            verdicts@,
            gold.events@,
            test.events@,
        ),
    ensures
        res == outcome(*gold, *test, verdicts@),
{
    let n = gold.events.len();
    if n != test.events.len() {
        return Err(Mismatch::Length { gold: n, test: test.events.len() });
    }
    let mut i: usize = 0;
    while i < n
        invariant
            0 <= i <= n,
            n == gold.events@.len(),
            n == test.events@.len(),
            answers_all(verdicts@, gold.events@, test.events@),
            first_failure(gold.events@, test.events@, verdicts@, i as int) is None,
        decreases n - i,
    {
        match judge_pair(&gold.events[i], &test.events[i], &verdicts[i], i) {
            Some(mismatch) => {
                proof {
                    lemma_first_failure_stays(
                        gold.events@,
                        test.events@,
                        verdicts@,
                        i + 1,
                        n as int,
                    );
                }
                return Err(mismatch);
            },
            None => {},
        }
        i += 1;
    }
    Ok(Summary { events: n, meta_gold: gold.metas.len(), meta_test: test.metas.len() })
}

/// `verdicts` are verdicts that `judge` gave on `asked`, and `asked` are the
/// checks that the pairs of events call for.
pub open spec fn judged_by<F: Fn(&Check) -> Verdict>(
    verdicts: Seq<Vec<Verdict>>,
    asked: Seq<Vec<Check>>,
    gold: Seq<Json>,
    test: Seq<Json>,
    judge: F,
) -> bool {
    &&& verdicts.len() == asked.len()
    &&& asked.len() == if gold.len() <= test.len() {
        gold.len()
    } else {
        test.len()
    }
    &&& forall|i: int|
        0 <= i < asked.len() ==> {
            &&& views((#[trigger] asked[i])@) == checks_for(gold[i], test[i])
            &&& verdicts[i]@.len() == asked[i]@.len()
        }
    &&& forall|i: int, k: int|
        0 <= i < asked.len() && 0 <= k < asked[i]@.len() ==> call_ensures(
            judge,
            (&(#[trigger] asked[i])@[k],),
            #[trigger] verdicts[i]@[k],
        )
}

/// Compares two traces, with `judge` to compare the numbers.
///
/// `judge` is asked for a verdict on each check that the pairs of events
/// call for, and the traces are judged from its verdicts as `run` does.
pub fn run_with<F: Fn(&Check) -> Verdict>(gold: &Trace, test: &Trace, judge: F) -> (res: Result<
    Summary,
    Mismatch,
>)
    requires
        forall|check: &Check| call_requires(judge, (check,)),
    ensures
        exists|asked: Seq<Vec<Check>>, verdicts: Seq<Vec<Verdict>>|
            judged_by(verdicts, asked, gold.events@, test.events@, judge) && res == outcome(
                *gold,
                *test,
                verdicts,
            ),
{
    let asked = checks(gold, test);
    let mut verdicts: Vec<Vec<Verdict>> = Vec::new();
    let mut i: usize = 0;
    while i < asked.len()
        invariant
            0 <= i <= asked.len(),
            asked@.len() <= gold.events@.len(),
            asked@.len() <= test.events@.len(),
            forall|check: &Check| call_requires(judge, (check,)),
            forall|j: int|
                0 <= j < asked@.len() ==> views((#[trigger] asked@[j])@) == checks_for(
                    gold.events@[j],
                    test.events@[j],
                ),
            verdicts@.len() == i,
            forall|j: int| 0 <= j < i ==> (#[trigger] verdicts@[j])@.len() == asked@[j]@.len(),
            forall|j: int, k: int|
                0 <= j < i && 0 <= k < asked@[j]@.len() ==> call_ensures(
                    judge,
                    (&(#[trigger] asked@[j])@[k],),
                    #[trigger] verdicts@[j]@[k],
                ),
        decreases asked.len() - i,
    {
        let pair = &asked[i];
        let mut answers: Vec<Verdict> = Vec::new();
        let mut k: usize = 0;
        while k < pair.len()
            invariant
                0 <= k <= pair.len(),
                forall|check: &Check| call_requires(judge, (check,)),
                answers@.len() == k,
                forall|m: int|
                    0 <= m < k ==> call_ensures(judge, (&pair@[m],), #[trigger] answers@[m]),
            decreases pair.len() - k,
        {
            let answer = judge(&pair[k]);
            answers.push(answer);
            k += 1;
        }
        verdicts.push(answers);
        i += 1;
    }
    proof {
        assert forall|j: int|
            0 <= j < gold.events@.len() && j < test.events@.len() && gold.events@.len()
                == test.events@.len() implies (#[trigger] verdicts@[j])@.len() == checks_for(
            gold.events@[j],
            test.events@[j],
        ).len() by {
            assert(views(asked@[j]@).len() == asked@[j]@.len());
        }
    }
    let res = run(gold, test, &verdicts);
    assert(judged_by(verdicts@, asked@, gold.events@, test.events@, judge));
    res
}

/// A disagreement among the first `m` pairs is the first one among more.
pub(crate) proof fn lemma_first_failure_stays(
    gold: Seq<Json>,
    test: Seq<Json>,
    verdicts: Seq<Vec<Verdict>>,
    m: int,
    n: int,
)
    requires
        m <= n,
        first_failure(gold, test, verdicts, m) is Some,
    ensures
        first_failure(gold, test, verdicts, n) == first_failure(gold, test, verdicts, m),
    decreases n - m,
{
    if m < n {
        lemma_first_failure_stays(gold, test, verdicts, m, n - 1);
    }
}

/// A way to judge checks: the verdict on each check by its texts.
pub type Judge = spec_fn(CheckView) -> Verdict;

/// The verdicts are those of `judge` on the checks of each pair of events.
pub open spec fn answered_by(
    verdicts: Seq<Vec<Verdict>>,
    gold: Seq<Json>,
    test: Seq<Json>,
    judge: Judge,
) -> bool {
    &&& answers_all(verdicts, gold, test)
    &&& forall|i: int, k: int|
        0 <= i < gold.len() && i < test.len() && 0 <= k < checks_for(gold[i], test[i]).len()
            ==> (#[trigger] verdicts[i])@[k] == judge(#[trigger] checks_for(gold[i], test[i])[k])
}

/// Under `judge`, the numbers that both payloads hold under one key are
/// close, whatever the key.
pub open spec fn payloads_agree(
    gold: Seq<(String, Json)>,
    test: Seq<(String, Json)>,
    judge: Judge,
) -> bool {
    forall|key: Seq<char>|
        (#[trigger] number_under(gold, key)) is Some && number_under(test, key) is Some ==> judge(
            CheckView::Value {
                key,
                gold_number: number_under(gold, key)->0,
                test_number: number_under(test, key)->0,
            },
        ) != Verdict::Exceeds
}

/// Under `judge`, two events agree: they are of one type, both have a time
/// and the two times are close, and where both have a payload, the numbers
/// that both payloads hold under one key are close.
pub open spec fn pair_agrees(gold: Json, test: Json, judge: Judge) -> bool {
    &&& kind_of(gold) == kind_of(test)
    &&& time_of(gold) is Some
    &&& time_of(test) is Some
    &&& judge(CheckView::Time { gold_time: time_of(gold)->0, test_time: time_of(test) })
        == Verdict::Within
    &&& payload_of(gold) is Some && payload_of(test) is Some ==> payloads_agree(
        payload_of(gold)->0,
        payload_of(test)->0,
        judge,
    )
}

/// Under `judge`, two lists of events agree: they are of one length, and
/// event by event they agree.
pub open spec fn agree(gold: Seq<Json>, test: Seq<Json>, judge: Judge) -> bool {
    &&& gold.len() == test.len()
    &&& forall|i: int| 0 <= i < gold.len() ==> pair_agrees(#[trigger] gold[i], test[i], judge)
}

/// `judge` gives the same verdict on close or not close whichever of two
/// numbers is on the gold side.
pub open spec fn is_symmetric(judge: Judge) -> bool {
    &&& forall|a: Seq<char>, b: Seq<char>|
        (#[trigger] judge(CheckView::Time { gold_time: a, test_time: Some(b) }) == Verdict::Within)
            == (judge(CheckView::Time { gold_time: b, test_time: Some(a) }) == Verdict::Within)
    &&& forall|key: Seq<char>, a: Seq<char>, b: Seq<char>|
        (#[trigger] judge(CheckView::Value { key, gold_number: a, test_number: b })
            == Verdict::Exceeds) == (judge(
            CheckView::Value { key, gold_number: b, test_number: a },
        ) == Verdict::Exceeds)
}

/// There is no disagreement among the first `n` pairs exactly when none of
/// them disagrees.
pub(crate) proof fn lemma_no_failure(
    gold: Seq<Json>,
    test: Seq<Json>,
    verdicts: Seq<Vec<Verdict>>,
    n: int,
)
    requires
        0 <= n,
    ensures
        first_failure(gold, test, verdicts, n) is None <==> forall|i: int|
            0 <= i < n ==> failure_at(
                #[trigger] gold[i],
                test[i],
                verdicts[i]@,
                i as usize,
            ) is None,
    decreases n,
{
    if n > 0 {
        lemma_no_failure(gold, test, verdicts, n - 1);
        if first_failure(gold, test, verdicts, n) is None {
            assert forall|i: int| 0 <= i < n implies failure_at(
                #[trigger] gold[i],
                test[i],
                verdicts[i]@,
                i as usize,
            ) is None by {
                if i == n - 1 {
                }
            }
        }
    }
}

/// No verdict from `from` on is `Exceeds` exactly when there is no first
/// one.
pub(crate) proof fn lemma_first_exceeds(answers: Seq<Verdict>, from: int)
    requires
        0 <= from,
    ensures
        first_exceeds(answers, from) is None <==> forall|k: int|
            from <= k < answers.len() ==> #[trigger] answers[k] != Verdict::Exceeds,
    decreases answers.len() - from,
{
    if from < answers.len() {
        lemma_first_exceeds(answers, from + 1);
        if answers[from] != Verdict::Exceeds && first_exceeds(answers, from) is None {
            assert forall|k: int| from <= k < answers.len() implies #[trigger] answers[k]
                != Verdict::Exceeds by {
                if k == from {
                }
            }
        }
    }
}

/// Each of the checks on the payloads is the check that an entry of the gold
/// payload calls for.
pub(crate) proof fn lemma_value_checks_from_entries(
    gold: Seq<(String, Json)>,
    test: Seq<(String, Json)>,
    n: int,
    p: int,
) -> (i: int)
    requires
        0 <= n <= gold.len(),
        0 <= p < value_checks(gold, test, n).len(),
    ensures
        0 <= i < n,
        value_check(gold, test, i) == Some(value_checks(gold, test, n)[p]),
    decreases n,
{
    let before = value_checks(gold, test, n - 1);
    if value_check(gold, test, n - 1) is Some && p == before.len() {
        n - 1
    } else {
        lemma_value_checks_from_entries(gold, test, n - 1, p)
    }
}

/// The check that an entry of the gold payload calls for is among the
/// checks on the payloads.
pub(crate) proof fn lemma_value_checks_hold_entries(
    gold: Seq<(String, Json)>,
    test: Seq<(String, Json)>,
    n: int,
    i: int,
) -> (p: int)
    requires
        0 <= i < n <= gold.len(),
        value_check(gold, test, i) is Some,
    ensures
        0 <= p < value_checks(gold, test, n).len(),
        value_check(gold, test, i) == Some(value_checks(gold, test, n)[p]),
    decreases n,
{
    let before = value_checks(gold, test, n - 1);
    if i == n - 1 {
        before.len() as int
    } else {
        lemma_value_checks_hold_entries(gold, test, n - 1, i)
    }
}

/// Under `judge`, no check on the payloads exceeds exactly when the payloads
/// agree.
pub(crate) proof fn lemma_payloads_agree(gold: Seq<(String, Json)>, test: Seq<(String, Json)>, judge: Judge)
    ensures
        payloads_agree(gold, test, judge) <==> forall|p: int|
            0 <= p < value_checks(gold, test, gold.len() as int).len() ==> judge(
                #[trigger] value_checks(gold, test, gold.len() as int)[p],
            ) != Verdict::Exceeds,
{
    let n = gold.len() as int;
    let all = value_checks(gold, test, n);
    if payloads_agree(gold, test, judge) {
        assert forall|p: int| 0 <= p < all.len() implies judge(#[trigger] all[p])
            != Verdict::Exceeds by {
            let i = lemma_value_checks_from_entries(gold, test, n, p);
            let key = gold[i].0@;
            assert(number_under(gold, key) is Some);
        }
    }
    if forall|p: int| 0 <= p < all.len() ==> judge(#[trigger] all[p]) != Verdict::Exceeds {
        assert forall|key: Seq<char>|
            (#[trigger] number_under(gold, key)) is Some && number_under(
                test,
                key,
            ) is Some implies judge(
            CheckView::Value {
                key,
                gold_number: number_under(gold, key)->0,
                test_number: number_under(test, key)->0,
            },
        ) != Verdict::Exceeds by {
            lemma_entry_index(gold, key, 0);
            let i = entry_index(gold, key, 0)->0;
            assert(gold[i].0@ =~= key);
            let p = lemma_value_checks_hold_entries(gold, test, n, i);
            assert(judge(all[p]) != Verdict::Exceeds);
        }
    }
}

/// Where the verdicts are those of `judge`, a pair of events disagrees
/// exactly when it does not agree under `judge`.
pub(crate) proof fn lemma_pair_agrees(
    gold: Json,
    test: Json,
    answers: Seq<Verdict>,
    judge: Judge,
    index: usize,
)
    requires
        answers.len() == checks_for(gold, test).len(),
        forall|k: int|
            0 <= k < answers.len() ==> #[trigger] answers[k] == judge(checks_for(gold, test)[k]),
    ensures
        failure_at(gold, test, answers, index) is None <==> pair_agrees(gold, test, judge),
{
    if kind_of(gold) == kind_of(test) && time_of(gold) is Some {
        let all = checks_for(gold, test);
        let time = CheckView::Time { gold_time: time_of(gold)->0, test_time: time_of(test) };
        assert(all[0] == time);
        assert(answers[0] == judge(time));
        lemma_first_exceeds(answers, 1);
        if payload_of(gold) is Some && payload_of(test) is Some {
            let g = payload_of(gold)->0;
            let t = payload_of(test)->0;
            let values = value_checks(g, t, g.len() as int);
            lemma_payloads_agree(g, t, judge);
            assert forall|p: int| 0 <= p < values.len() implies judge(#[trigger] values[p])
                == answers[p + 1] by {
                assert(all[p + 1] == values[p]);
            }
            if forall|k: int| 1 <= k < answers.len() ==> #[trigger] answers[k] != Verdict::Exceeds {
                assert forall|p: int| 0 <= p < values.len() implies judge(#[trigger] values[p])
                    != Verdict::Exceeds by {
                    assert(answers[p + 1] != Verdict::Exceeds);
                }
            }
            if forall|p: int| 0 <= p < values.len() ==> judge(#[trigger] values[p])
                != Verdict::Exceeds {
                assert forall|k: int| 1 <= k < answers.len() implies #[trigger] answers[k]
                    != Verdict::Exceeds by {
                    assert(judge(values[k - 1]) == answers[k - 1 + 1]);
                }
            }
        } else {
            assert(all.len() == 1);
        }
    }
}

/// The comparison succeeds exactly when the traces agree: where the
/// verdicts are those of `judge`, `run` accepts two traces if and only if
/// they hold as many events, and every pair of events is of one type, has
/// two times that are close, and has close numbers under every key under
/// which both payloads hold a number.
pub proof fn lemma_accepts_iff_agree(
    gold: Trace,
    test: Trace,
    verdicts: Seq<Vec<Verdict>>,
    judge: Judge,
)
    requires
        gold.events@.len() == test.events@.len() ==> answered_by(
            verdicts,
            gold.events@,
            test.events@,
            judge,
        ),
    ensures
        outcome(gold, test, verdicts) is Ok <==> agree(gold.events@, test.events@, judge),
{
    let g = gold.events@;
    let t = test.events@;
    if g.len() == t.len() {
        let n = g.len() as int;
        lemma_no_failure(g, t, verdicts, n);
        assert forall|i: int| 0 <= i < n implies (failure_at(
            #[trigger] g[i],
            t[i],
            verdicts[i]@,
            i as usize,
        ) is None <==> pair_agrees(g[i], t[i], judge)) by {
            assert forall|k: int| 0 <= k < verdicts[i]@.len() implies #[trigger] verdicts[i]@[k]
                == judge(checks_for(g[i], t[i])[k]) by {
                assert(verdicts[i]@[k] == judge(checks_for(g[i], t[i])[k]));
            }
            lemma_pair_agrees(g[i], t[i], verdicts[i]@, judge, i as usize);
        }
    }
}

/// Agreement does not depend on which trace is the gold one: under a
/// symmetric `judge`, two lists of events agree exactly when they agree the
/// other way round.
pub proof fn lemma_agree_is_symmetric(gold: Seq<Json>, test: Seq<Json>, judge: Judge)
    requires
        is_symmetric(judge),
    ensures
        agree(gold, test, judge) == agree(test, gold, judge),
{
    if agree(gold, test, judge) {
        assert forall|i: int| 0 <= i < test.len() implies pair_agrees(
            #[trigger] test[i],
            gold[i],
            judge,
        ) by {
            lemma_pair_mirrored(gold[i], test[i], judge);
        }
    }
    if agree(test, gold, judge) {
        assert forall|i: int| 0 <= i < gold.len() implies pair_agrees(
            #[trigger] gold[i],
            test[i],
            judge,
        ) by {
            lemma_pair_mirrored(test[i], gold[i], judge);
        }
    }
}

/// Under a symmetric `judge`, two events that agree agree the other way
/// round.
proof fn lemma_pair_mirrored(gold: Json, test: Json, judge: Judge)
    requires
        is_symmetric(judge),
        pair_agrees(gold, test, judge),
    ensures
        pair_agrees(test, gold, judge),
{
    let a = time_of(gold)->0;
    let b = time_of(test)->0;
    assert(judge(CheckView::Time { gold_time: a, test_time: Some(b) }) == Verdict::Within);
    if payload_of(gold) is Some && payload_of(test) is Some {
        let g = payload_of(gold)->0;
        let t = payload_of(test)->0;
        assert forall|key: Seq<char>|
            (#[trigger] number_under(t, key)) is Some && number_under(g, key) is Some implies judge(
            CheckView::Value {
                key,
                gold_number: number_under(t, key)->0,
                test_number: number_under(g, key)->0,
            },
        ) != Verdict::Exceeds by {
            assert(number_under(g, key) is Some);
            assert(judge(
                CheckView::Value {
                    key,
                    gold_number: number_under(g, key)->0,
                    test_number: number_under(t, key)->0,
                },
            ) != Verdict::Exceeds);
        }
    }
}

/// A list of events agrees with itself, where every event has a time that
/// `judge` finds close to itself, and `judge` finds every number close to
/// itself.
pub proof fn lemma_agrees_with_itself(events: Seq<Json>, judge: Judge)
    requires
        forall|i: int|
            0 <= i < events.len() ==> time_of(#[trigger] events[i]) is Some && judge(
                CheckView::Time { gold_time: time_of(events[i])->0, test_time: time_of(events[i]) },
            ) == Verdict::Within,
        forall|key: Seq<char>, a: Seq<char>| #[trigger]
            judge(CheckView::Value { key, gold_number: a, test_number: a }) != Verdict::Exceeds,
    ensures
        agree(events, events, judge),
{
}

/// Verdicts that a function gave which judges as `judge` does are the
/// verdicts of `judge`.
pub proof fn lemma_judged_is_answered<F: Fn(&Check) -> Verdict>(
    verdicts: Seq<Vec<Verdict>>,
    asked: Seq<Vec<Check>>,
    gold: Seq<Json>,
    test: Seq<Json>,
    f: F,
    judge: Judge,
)
    requires
        judged_by(verdicts, asked, gold, test, f),
        gold.len() == test.len(),
        forall|check: &Check, verdict: Verdict| #[trigger]
            call_ensures(f, (check,), verdict) ==> verdict == judge(check@),
    ensures
        answered_by(verdicts, gold, test, judge),
{
    assert forall|i: int, k: int|
        0 <= i < gold.len() && i < test.len() && 0 <= k < checks_for(
            gold[i],
            test[i],
        ).len() implies (#[trigger] verdicts[i])@[k] == judge(
        #[trigger] checks_for(gold[i], test[i])[k],
    ) by {
        assert(views(asked[i]@) == checks_for(gold[i], test[i]));
        assert(views(asked[i]@)[k] == asked[i]@[k]@);
        assert(call_ensures(f, (&asked[i]@[k],), verdicts[i]@[k]));
    }
    assert forall|i: int| 0 <= i < gold.len() && i < test.len() implies (#[trigger] verdicts[i])@.len()
        == checks_for(gold[i], test[i]).len() by {
        assert(views(asked[i]@).len() == asked[i]@.len());
    }
}

/// Swapping the traces does not change whether the comparison succeeds:
/// where the verdicts both ways are those of one symmetric `judge`, `run`
/// accepts gold against test exactly when it accepts test against gold.
pub proof fn lemma_run_is_symmetric(
    gold: Trace,
    test: Trace,
    forth: Seq<Vec<Verdict>>,
    back: Seq<Vec<Verdict>>,
    judge: Judge,
)
    requires
        is_symmetric(judge),
        gold.events@.len() == test.events@.len() ==> answered_by(
            forth,
            gold.events@,
            test.events@,
            judge,
        ) && answered_by(back, test.events@, gold.events@, judge),
    ensures
        outcome(gold, test, forth) is Ok <==> outcome(test, gold, back) is Ok,
{
    lemma_accepts_iff_agree(gold, test, forth, judge);
    lemma_accepts_iff_agree(test, gold, back, judge);
    lemma_agree_is_symmetric(gold.events@, test.events@, judge);
}

/// A trace compared with itself is accepted, where the verdicts are those
/// of a `judge` that finds the time of every event, and every number, close
/// to itself.
pub proof fn lemma_run_accepts_itself(trace: Trace, verdicts: Seq<Vec<Verdict>>, judge: Judge)
    requires
        answered_by(verdicts, trace.events@, trace.events@, judge),
        forall|i: int|
            0 <= i < trace.events@.len() ==> time_of(#[trigger] trace.events@[i]) is Some && judge(
                CheckView::Time {
                    gold_time: time_of(trace.events@[i])->0,
                    test_time: time_of(trace.events@[i]),
                },
            ) == Verdict::Within,
        forall|key: Seq<char>, a: Seq<char>| #[trigger]
            judge(CheckView::Value { key, gold_number: a, test_number: a }) != Verdict::Exceeds,
    ensures
        outcome(trace, trace, verdicts) is Ok,
{
    lemma_agrees_with_itself(trace.events@, judge);
    lemma_accepts_iff_agree(trace, trace, verdicts, judge);
}

/// The type of the event at `index`, and `?` where there is no such event.
pub open spec fn kind_at(events: Seq<Json>, index: int) -> Seq<char> {
    if 0 <= index < events.len() {
        kind_of(events[index])
    } else {
        "?"@
    }
}

/// The words for a disagreement that does not lie in the numbers: in the
/// lengths, in the types, or in a time that is not there.
pub open spec fn words_of(mismatch: Mismatch, gold: Seq<Json>, test: Seq<Json>) -> Option<Seq<char>> {
    match mismatch {
        Mismatch::Length { gold: g, test: t } => Some(
            "Event length mismatch: gold="@ + decimal_text(g as nat) + " test="@ + decimal_text(
                t as nat,
            ),
        ),
        Mismatch::Kind { index } => Some(
            "Mismatch at idx="@ + decimal_text(index as nat) + ": kind gold='"@ + kind_at(
                gold,
                index as int,
            ) + "' test='"@ + kind_at(test, index as int) + "'"@,
        ),
        Mismatch::MissingTime { index, in_gold } => Some(
            (if in_gold {
                "Missing/invalid t_s in gold at idx="@
            } else {
                "Missing/invalid t_s in test at idx="@
            }) + decimal_text(index as nat),
        ),
        _ => None,
    }
}

/// The type of the event at `index`, and `?` where there is no such event.
pub fn kind_text(events: &Vec<Json>, index: usize) -> (r: String)
    ensures
        r@ == kind_at(events@, index as int),
{
    if index < events.len() {
        match text_of(&events[index], "type") {
            Some(kind) => kind.clone(),
            None => String::from_str("?"),
        }
    } else {
        String::from_str("?")
    }
}

/// Puts a disagreement that does not lie in the numbers into words. One that
/// lies in the numbers has words of the caller, who knows the numbers.
pub fn message(mismatch: &Mismatch, gold: &Trace, test: &Trace) -> (r: Option<String>)
    ensures
        match r {
            Some(words) => words_of(*mismatch, gold.events@, test.events@) == Some(words@),
            None => words_of(*mismatch, gold.events@, test.events@) is None,
        },
{
    match *mismatch {
        Mismatch::Length { gold: g, test: t } => {
            let mut words = String::from_str("Event length mismatch: gold=");
            words.append(decimal(g).as_str());
            words.append(" test=");
            words.append(decimal(t).as_str());
            Some(words)
        },
        Mismatch::Kind { index } => {
            let mut words = String::from_str("Mismatch at idx=");
            words.append(decimal(index).as_str());
            words.append(": kind gold='");
            words.append(kind_text(&gold.events, index).as_str());
            words.append("' test='");
            words.append(kind_text(&test.events, index).as_str());
            words.append("'");
            Some(words)
        },
        Mismatch::MissingTime { index, in_gold } => {
            let mut words = if in_gold {
                String::from_str("Missing/invalid t_s in gold at idx=")
            } else {
                String::from_str("Missing/invalid t_s in test at idx=")
            };
            words.append(decimal(index).as_str());
            Some(words)
        },
        _ => None,
    }
}

} // verus!
