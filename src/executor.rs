//! The decisions of one request that is retried until it succeeds.
//!
//! The caller runs the loop: on `Action::Attempt` it takes a rate-limiter
//! permit and sends the request, on `Action::Decode` it decodes the given text,
//! on `Action::Deliver` it hands the decoded value back. Each outcome goes back
//! in as an `Event`. Every failure is transient and leads to another attempt,
//! with no bound.
use vstd::prelude::*;

verus! {

/// Matches the content of an `owner` field, which the upstream service fills
/// with invalid encoded text.
pub const OWNER_FIELD_PATTERN: &'static str = "\"owner\":\"([^\"]+?)\"";

/// What an `owner` field is rewritten to before decoding.
pub const OWNER_FIELD_PLACEHOLDER: &'static str = "\"owner\":\"_\"";

/// `text` with every non-overlapping match of the regular expression `pattern`
/// replaced by `rep`.
pub uninterp spec fn regex_replaced_all(pattern: Seq<char>, text: Seq<char>, rep: Seq<char>) -> Seq<char>;

/// Relies on regex::Regex::new, which compiles `pattern` or reports it invalid,
/// and on Regex::replace_all, which replaces every non-overlapping match of it in
/// `text` by `rep`. The two calls make one operation, so they share one item.
/// `Regex::new` fails only on an invalid pattern or one over the size limit,
/// and the `owner` field pattern is neither.
#[verifier::external_body]
fn regex_replace_all(pattern: &str, text: &str, rep: &str) -> (r: Option<String>)
    ensures
        r matches Some(t) ==> t@ == regex_replaced_all(pattern@, text@, rep@),
        pattern@ == OWNER_FIELD_PATTERN@ ==> r is Some,
{
    match regex::Regex::new(pattern) {
        Ok(re) => Some(re.replace_all(text, rep).into_owned()),
        Err(_) => None,
    }
}

/// The body after the `owner` field repair.
pub open spec fn repaired(body: Seq<char>) -> Seq<char> {
    regex_replaced_all(OWNER_FIELD_PATTERN@, body, OWNER_FIELD_PLACEHOLDER@)
}

/// Why an attempt failed.
#[derive(Clone, Copy, Debug, PartialEq, Eq, Structural)]
pub enum Failure {
    /// The connection failed or timed out.
    Transport,
    /// The service answered with a status other than success.
    Upstream(u16),
    /// The response body could not be read.
    Read,
    /// The repaired body did not decode into the expected shape.
    Decode,
}

/// What happened to the last action.
pub enum Event {
    Failed(Failure),
    /// The response body was read in full.
    BodyRead(String),
    /// The text handed out for decoding decoded.
    Decoded,
}

/// What the caller does next.
pub enum Action {
    /// Take a permit and send the request.
    Attempt,
    /// Decode this text into the expected shape.
    Decode(String),
    /// Hand the decoded value to the caller of the request.
    Deliver,
}

/// The state of one request: how many attempts were started, and whether the
/// value has been delivered.
pub struct RequestExecutor {
    pub attempts: u64,
    pub finished: bool,
}

/// The state after `e`.
pub open spec fn step(s: RequestExecutor, e: Event) -> RequestExecutor {
    match e {
        Event::Failed(_) => RequestExecutor {
            attempts: if s.attempts < u64::MAX { (s.attempts + 1) as u64 } else { s.attempts },
            finished: false,
        },
        Event::BodyRead(_) => s,
        Event::Decoded => RequestExecutor { attempts: s.attempts, finished: true },
    }
}

/// The state after the events `es`, in order.
pub open spec fn run(s: RequestExecutor, es: Seq<Event>) -> RequestExecutor
    decreases es.len(),
{
    if es.len() == 0 {
        s
    } else {
        run(step(s, es[0]), es.drop_first())
    }
}

/// Rewrites the content of every `owner` field of `body` to a placeholder.
pub fn repair_body(body: &str) -> (r: String)
    ensures
        r@ == repaired(body@),
{
    regex_replace_all(OWNER_FIELD_PATTERN, body, OWNER_FIELD_PLACEHOLDER).unwrap()
}

impl RequestExecutor {
    /// A request whose first attempt is starting.
    pub fn new() -> (r: RequestExecutor)
        ensures
            r.attempts == 1,
            !r.finished,
    {
        RequestExecutor { attempts: 1, finished: false }
    }

    /// Takes the outcome of the last action and says what to do next. A failure
    /// of any kind starts another attempt; a body read in full is repaired and
    /// handed out for decoding; a decoded value is delivered.
    pub fn on_event(&mut self, e: Event) -> (a: Action)
        requires
            !old(self).finished,
        ensures
            *final(self) == step(*old(self), e),
            (e is Failed) <==> (a is Attempt),
            (e is Decoded) <==> (a is Deliver),
            e matches Event::BodyRead(body) ==> (a matches Action::Decode(t) && t@ == repaired(
                body@,
            )),
    {
        match e {
            Event::Failed(_) => {
                if self.attempts < u64::MAX {
                    self.attempts = self.attempts + 1;
                }
                Action::Attempt
            },
            Event::BodyRead(body) => Action::Decode(repair_body(body.as_str())),
            Event::Decoded => {
                self.finished = true;
                Action::Deliver
            },
        }
    }
}

/// However many attempts have failed, a request that then reads a body and
/// decodes it is finished, and not before: it never gives up and never
/// delivers early.
pub proof fn lemma_delivers_after_failures(s: RequestExecutor, failures: Seq<Failure>, body: String)
    requires
        !s.finished,
    ensures
        ({
            let es = failures.map_values(|f: Failure| Event::Failed(f)) + seq![
                Event::BodyRead(body),
                Event::Decoded,
            ];
            &&& run(s, es).finished
            &&& forall|k: int| 0 <= k < es.len() ==> !(#[trigger] run(s, es.take(k))).finished
        }),
{
    let es = failures.map_values(|f: Failure| Event::Failed(f)) + seq![
        Event::BodyRead(body),
        Event::Decoded,
    ];
    lemma_run_failures(s, failures, body);
    assert forall|k: int| 0 <= k < es.len() implies !(#[trigger] run(s, es.take(k))).finished by {
        lemma_run_prefix_unfinished(s, es, k);
    }
}

proof fn lemma_run_failures(s: RequestExecutor, failures: Seq<Failure>, body: String)
    requires
        !s.finished,
    ensures
        run(
            s,
            failures.map_values(|f: Failure| Event::Failed(f)) + seq![
                Event::BodyRead(body),
                Event::Decoded,
            ],
        ).finished,
    decreases failures.len(),
{
    let es = failures.map_values(|f: Failure| Event::Failed(f)) + seq![
        Event::BodyRead(body),
        Event::Decoded,
    ];
    if failures.len() == 0 {
        assert(es =~= seq![Event::BodyRead(body), Event::Decoded]);
        assert(es.drop_first() =~= seq![Event::Decoded]);
        assert(es.drop_first().drop_first() =~= Seq::<Event>::empty());
        let s1 = step(s, es[0]);
        let s2 = step(s1, es.drop_first()[0]);
        assert(s2.finished);
        assert(run(s2, es.drop_first().drop_first()) == s2);
        assert(run(s1, es.drop_first()) == run(s2, es.drop_first().drop_first()));
    } else {
        assert(es[0] == Event::Failed(failures[0]));
        let rest = failures.drop_first();
        lemma_run_failures(step(s, es[0]), rest, body);
        assert(es.drop_first() =~= rest.map_values(|f: Failure| Event::Failed(f)) + seq![
            Event::BodyRead(body),
            Event::Decoded,
        ]);
    }
}

proof fn lemma_run_prefix_unfinished(s: RequestExecutor, es: Seq<Event>, k: int)
    requires
        !s.finished,
        0 <= k < es.len(),
        es.last() is Decoded,
        forall|i: int| 0 <= i < es.len() - 1 ==> !(#[trigger] es[i] is Decoded),
    ensures
        !run(s, es.take(k)).finished,
    decreases k,
{
    if k > 0 {
        let p = es.take(k);
        assert(p[0] == es[0]);
        assert(!(es[0] is Decoded));
        assert(p.drop_first() =~= es.drop_first().take(k - 1));
        lemma_run_prefix_unfinished(step(s, es[0]), es.drop_first(), k - 1);
    } else {
        assert(es.take(0) =~= Seq::<Event>::empty());
    }
}

} // verus!
