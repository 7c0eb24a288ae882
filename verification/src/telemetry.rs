//! Where telemetry goes and what a request is recorded under.
use vstd::prelude::*;
use vstd::string::*;

verus! {

/// `s` without the slashes at its end.
pub open spec fn without_slashes(s: Seq<char>) -> Seq<char>
    decreases s.len(),
{
    if s.len() > 0 && s.last() == '/' {
        without_slashes(s.drop_last())
    } else {
        s
    }
}

proof fn lemma_without_slashes(s: Seq<char>, end: int)
    requires
        0 <= end <= s.len(),
        forall|k: int| end <= k < s.len() ==> #[trigger] s[k] == '/',
        end > 0 ==> s[end - 1] != '/',
    ensures
        without_slashes(s) == s.take(end),
    decreases s.len() - end,
{
    if end < s.len() {
        assert(s.last() == '/');
        assert(s.drop_last().take(end) == s.take(end));
        lemma_without_slashes(s.drop_last(), end);
    } else {
        assert(s.take(end) == s);
    }
}

/// `raw` without the slashes at its end.
pub fn trim_slashes(raw: &str) -> (base: &str)
    ensures
        base@ == without_slashes(raw@),
{
    let count: usize = raw.unicode_len();
    let mut at: usize = 0;
    let mut end: usize = 0;
    for c in it: raw.chars()
        invariant
            it.seq() == raw@,
            count == raw@.len(),
            at == it.index(),
            end <= at <= count,
            forall|k: int| end <= k < at ==> #[trigger] raw@[k] == '/',
            end > 0 ==> raw@[end - 1] != '/',
    {
        if c != '/' {
            end = at + 1;
        }
        at = at + 1;
    }
    proof {
        lemma_without_slashes(raw@, end as int);
        assert(raw@.take(end as int) == raw@.subrange(0, end as int));
    }
    raw.substring_char(0, end)
}

/// Where each kind of telemetry is sent.
#[derive(Debug)]
pub struct OtlpEndpoints {
    pub traces: String,
    pub logs: String,
    pub metrics: String,
}

/// The collector's paths for traces, logs and metrics.
pub fn otlp_endpoints(collector: &str) -> (endpoints: OtlpEndpoints)
    ensures
        endpoints.traces@ == without_slashes(collector@) + "/v1/traces"@,
        endpoints.logs@ == without_slashes(collector@) + "/v1/logs"@,
        endpoints.metrics@ == without_slashes(collector@) + "/v1/metrics"@,
{
    let base = trim_slashes(collector);
    OtlpEndpoints {
        traces: base.to_owned().concat("/v1/traces"),
        logs: base.to_owned().concat("/v1/logs"),
        metrics: base.to_owned().concat("/v1/metrics"),
    }
}

/// The route a request is measured under: requests that match none share one
/// name, so that unknown paths do not multiply series.
pub fn metrics_route(matched: Option<&str>) -> (route: String)
    ensures
        route@ == match matched {
            Some(path) => path@,
            None => "unmatched"@,
        },
{
    match matched {
        Some(path) => path.to_owned(),
        None => "unmatched".to_owned(),
    }
}

/// The route a request is traced under: its own path, if it matches none.
pub fn span_route(matched: Option<&str>, path: &str) -> (route: String)
    ensures
        route@ == match matched {
            Some(route) => route@,
            None => path@,
        },
{
    match matched {
        Some(route) => route.to_owned(),
        None => path.to_owned(),
    }
}

/// All slashes at the end go and nothing else does.
pub proof fn law_slashes_at_the_end_go(s: Seq<char>, end: int)
    requires
        0 <= end <= s.len(),
        forall|k: int| end <= k < s.len() ==> #[trigger] s[k] == '/',
        end > 0 ==> s[end - 1] != '/',
    ensures
        without_slashes(s) == s.take(end),
{
    lemma_without_slashes(s, end);
}

} // verus!
