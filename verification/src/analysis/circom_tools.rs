//! Circom compiler integration: optimization flags, constraint metrics and the
//! reading of the compiler's report.
use crate::text::{decimal, push_decimal};
use vstd::prelude::*;

verus! {

/// Optimization level for the Circom compiler.
#[derive(Clone, Copy, Debug, PartialEq, Eq, Structural)]
pub enum OptLevel {
    /// No optimization (--O0)
    O0,
    /// Level 1 optimization (--O1): simplifications and basic optimizations
    O1,
    /// Level 2 optimization (--O2): aggressive optimizations including constraint reduction
    O2,
}

/// Command-line flag of an optimization level.
pub open spec fn flag_text(level: OptLevel) -> Seq<char> {
    match level {
        OptLevel::O0 => "--O0"@,
        OptLevel::O1 => "--O1"@,
        OptLevel::O2 => "--O2"@,
    }
}

impl OptLevel {
    /// Returns the command-line flag for this optimization level.
    pub fn as_flag(&self) -> (flag: &'static str)
        ensures
            flag@ == flag_text(*self),
    {
        match self {
            OptLevel::O0 => "--O0",
            OptLevel::O1 => "--O1",
            OptLevel::O2 => "--O2",
        }
    }
}

/// Metrics extracted from Circom compiler output.
#[derive(Clone, Copy, Debug)]
pub struct CircomMetrics {
    /// Number of non-linear constraints
    pub non_linear_constraints: usize,
    /// Number of linear constraints
    pub linear_constraints: usize,
    /// Total constraints (non-linear + linear)
    pub total_constraints: usize,
}

/// The report that `CircomMetrics::display` renders.
pub open spec fn circom_metrics_text(m: CircomMetrics) -> Seq<char> {
    "Circom Metrics:\n- Non-linear Constraints: "@ + decimal(m.non_linear_constraints as nat)
        + "\n- Linear Constraints: "@ + decimal(m.linear_constraints as nat)
        + "\n- Total Constraints: "@ + decimal(m.total_constraints as nat)
}

impl CircomMetrics {
    /// Pretty-prints the metrics.
    pub fn display(&self) -> (text: String)
        ensures
            text@ == circom_metrics_text(*self),
    {
        let mut s = String::new();
        s.append("Circom Metrics:\n- Non-linear Constraints: ");
        push_decimal(&mut s, self.non_linear_constraints);
        s.append("\n- Linear Constraints: ");
        push_decimal(&mut s, self.linear_constraints);
        s.append("\n- Total Constraints: ");
        push_decimal(&mut s, self.total_constraints);
        s
    }
}

// ---------------------------------------------------------------------------
// Reading the compiler's report
// ---------------------------------------------------------------------------

/// `c` is an ASCII decimal digit.
pub open spec fn is_ascii_digit(c: char) -> bool {
    '0' <= c && c <= '9'
}

/// Value of a sequence of ASCII digits, most significant first.
pub open spec fn digits_value(d: Seq<char>) -> nat
    decreases d.len(),
{
    if d.len() == 0 {
        0
    } else {
        digits_value(d.drop_last()) * 10 + (d.last() as nat - '0' as nat) as nat
    }
}

/// What `str::parse::<usize>` accepts: an optional `+`, then at least one ASCII
/// digit, with a value that fits in `usize`.
pub open spec fn parse_usize_spec(s: Seq<char>) -> Option<nat> {
    let d = unsigned_digits(s);
    if d.len() > 0 && all_ascii_digits(d) && digits_value(d) <= usize::MAX {
        Some(digits_value(d))
    } else {
        None
    }
}

/// The text after an optional leading `+`.
pub open spec fn unsigned_digits(s: Seq<char>) -> Seq<char> {
    if s.len() > 0 && s[0] == '+' {
        s.drop_first()
    } else {
        s
    }
}

/// Every character is an ASCII digit.
pub open spec fn all_ascii_digits(d: Seq<char>) -> bool {
    forall|i: int| 0 <= i < d.len() ==> is_ascii_digit(#[trigger] d[i])
}

/// Appending a digit never makes the value smaller.
pub proof fn lemma_digits_value_prefix(d: Seq<char>, k: int)
    requires
        0 <= k <= d.len(),
        forall|i: int| 0 <= i < d.len() ==> is_ascii_digit(#[trigger] d[i]),
    ensures
        digits_value(d.take(k)) <= digits_value(d),
    decreases d.len() - k,
{
    if k < d.len() {
        lemma_digits_value_prefix(d, k + 1);
        assert(d.take(k + 1).drop_last() =~= d.take(k));
    } else {
        assert(d.take(k) =~= d);
    }
}

/// Parses a decimal `usize` as `str::parse::<usize>` does.
pub fn parse_usize(s: &str) -> (res: Option<usize>)
    ensures
        res matches Some(v) ==> parse_usize_spec(s@) == Some(v as nat),
        res is None ==> parse_usize_spec(s@) is None,
{
    let len = s.unicode_len();
    let mut start: usize = 0;
    if len > 0 && s.get_char(0) == '+' {
        start = 1;
    }
    let ghost d = unsigned_digits(s@);
    assert(d =~= s@.subrange(start as int, len as int));
    if start == len {
        assert(d.len() == 0);
        return None;
    }
    let mut value: usize = 0;
    let mut i: usize = start;
    while i < len
        invariant
            len == s@.len(),
            start <= i <= len,
            d == s@.subrange(start as int, len as int),
            d == unsigned_digits(s@),
            forall|j: int| start <= j < i ==> is_ascii_digit(#[trigger] s@[j]),
            value == digits_value(s@.subrange(start as int, i as int)),
        decreases len - i,
    {
        let c = s.get_char(i);
        if !('0' <= c && c <= '9') {
            assert(!all_ascii_digits(d)) by {
                assert(d[i - start] == c);
                assert(!is_ascii_digit(d[i - start]));
            }
            return None;
        }
        let digit = (c as u32 - '0' as u32) as usize;
        assert(s@.subrange(start as int, i + 1).drop_last() =~= s@.subrange(start as int, i as int));
        let next = match value.checked_mul(10) {
            Some(t) => t.checked_add(digit),
            None => None,
        };
        match next {
            Some(v) => {
                value = v;
            },
            None => {
                proof {
                    if all_ascii_digits(d) {
                        lemma_digits_value_prefix(d, i + 1 - start);
                        assert(d.take(i + 1 - start) =~= s@.subrange(start as int, i + 1));
                        assert(digits_value(s@.subrange(start as int, i + 1)) == value * 10 + digit);
                    }
                }
                return None;
            },
        }
        i = i + 1;
    }
    proof {
        assert(s@.subrange(start as int, i as int) =~= d);
    }
    Some(value)
}

/// Name for what the `regex` crate reports: the text of capture group 1 of the
/// leftmost match of `pattern` in `text`, or `None` when there is no match or the
/// group does not take part in it.
pub uninterp spec fn regex_first_group(pattern: Seq<char>, text: Seq<char>) -> Option<Seq<char>>;

/// Name for whether `regex::Regex::new` accepts `pattern` (a valid pattern within
/// the crate's default size limits); it depends on the pattern alone.
pub uninterp spec fn regex_compiles(pattern: Seq<char>) -> bool;

#[verifier::external_type_specification]
#[verifier::external_body]
pub struct ExRegexError(regex::Error);

/// `regex::Regex::new(pattern)` followed by `captures(text)` and `get(1)`: the
/// compilation succeeds exactly when `regex_compiles(pattern)`, and then the result
/// is the text of group 1 of the leftmost match, as named by `regex_first_group`.
#[verifier::external_body]
fn regex_first_group_match(pattern: &str, text: &str) -> (res: Result<Option<String>, regex::Error>)
    ensures
        res is Ok <==> regex_compiles(pattern@),
        res matches Ok(g) ==> match g {
            Some(s) => regex_first_group(pattern@, text@) == Some(s@),
            None => regex_first_group(pattern@, text@) is None,
        },
{
    match regex::Regex::new(pattern) {
        Ok(re) => Ok(re.captures(text).and_then(|c| c.get(1)).map(|m| m.as_str().to_string())),
        Err(e) => Err(e),
    }
}

/// The `Display` text of a `regex::Error`; nothing is claimed of its content.
#[verifier::external_body]
fn regex_error_text(e: &regex::Error) -> String {
    e.to_string()
}

/// Message for a pattern that the `regex` crate refused: `"Regex error: "` and the
/// crate's description of the error.
fn regex_error_message(e: &regex::Error) -> (msg: String)
    ensures
        msg@.take(13) == "Regex error: "@,
{
    proof {
        reveal_strlit("Regex error: ");
    }
    let mut msg = String::new();
    msg.append("Regex error: ");
    let ghost m0 = msg@;
    let t = regex_error_text(e);
    msg.append(t.as_str());
    assert(msg@.take(13) =~= m0);
    msg
}

/// Pattern for the non-linear constraint count.
pub open spec fn non_linear_pattern() -> Seq<char> {
    "non-linear constraints:\\s*(\\d+)"@
}

/// Pattern for the linear constraint count, at the start of a line.
pub open spec fn linear_pattern() -> Seq<char> {
    "(?m)^linear constraints:\\s*(\\d+)"@
}

/// The count that a captured group gives, if there is one and it parses.
pub open spec fn group_count(group: Option<Seq<char>>) -> Option<nat> {
    match group {
        Some(g) => parse_usize_spec(g),
        None => None,
    }
}

/// The text of an optional captured group.
pub open spec fn group_view(group: Option<String>) -> Option<Seq<char>> {
    match group {
        Some(g) => Some(g@),
        None => None,
    }
}

/// The non-linear and linear counts of two groups add up without overflow.
pub open spec fn group_counts_fit(non_linear: Option<Seq<char>>, linear: Option<Seq<char>>) -> bool {
    match group_count(non_linear) {
        Some(nl) => nl + match group_count(linear) {
            Some(l) => l,
            None => 0,
        } <= usize::MAX,
        None => true,
    }
}

/// The count that the report gives for `pattern`, if a match is found and parses.
pub open spec fn reported_count(pattern: Seq<char>, text: Seq<char>) -> Option<nat> {
    group_count(regex_first_group(pattern, text))
}

/// The non-linear and linear counts of a report add up without overflow.
pub open spec fn reported_counts_fit(text: Seq<char>) -> bool {
    group_counts_fit(regex_first_group(non_linear_pattern(), text), regex_first_group(linear_pattern(), text))
}

/// Message when the report has no non-linear constraint count.
pub open spec fn missing_count_message() -> Seq<char> {
    "Could not find 'non-linear constraints' in output"@
}

/// Builds the metrics from the groups captured for the non-linear and the linear
/// count: the non-linear count must be present and parse, a missing or unparsable
/// linear count reads as 0.
pub fn metrics_from_groups(non_linear: &Option<String>, linear: &Option<String>) -> (res: Result<
    CircomMetrics,
    String,
>)
    requires
        group_counts_fit(group_view(*non_linear), group_view(*linear)),
    ensures
        res is Ok <==> group_count(group_view(*non_linear)) is Some,
        res matches Ok(m) ==> {
            &&& group_count(group_view(*non_linear)) == Some(m.non_linear_constraints as nat)
            &&& m.linear_constraints == match group_count(group_view(*linear)) {
                Some(l) => l,
                None => 0,
            }
            &&& m.total_constraints == m.non_linear_constraints + m.linear_constraints
        },
        res matches Err(e) ==> e@ == missing_count_message(),
{
    let non_linear = match non_linear {
        Some(g) => parse_usize(g.as_str()),
        None => None,
    };
    let non_linear = match non_linear {
        Some(v) => v,
        None => {
            let msg = String::from_str("Could not find 'non-linear constraints' in output");
            proof {
                reveal_strlit("Could not find 'non-linear constraints' in output");
            }
            return Err(msg);
        },
    };
    let linear = match linear {
        Some(g) => match parse_usize(g.as_str()) {
            Some(v) => v,
            None => 0,
        },
        None => 0,
    };
    Ok(
        CircomMetrics {
            non_linear_constraints: non_linear,
            linear_constraints: linear,
            total_constraints: non_linear + linear,
        },
    )
}

/// What parsing the Circom compiler's report `text` gives: a `"Regex error: ..."`
/// exactly when one of the two patterns does not compile; otherwise the counts that
/// the report gives (the non-linear count is required, a missing or unparsable
/// linear count reads as 0), or the missing-count message when the non-linear
/// count is absent or does not parse.
pub open spec fn report_result(text: Seq<char>, res: Result<CircomMetrics, String>) -> bool {
    let compiles = regex_compiles(non_linear_pattern()) && regex_compiles(linear_pattern());
    &&& !compiles ==> res is Err && res->Err_0@.take(13) == "Regex error: "@
    &&& compiles ==> (res is Ok <==> reported_count(non_linear_pattern(), text) is Some)
    &&& compiles ==> (res matches Ok(m) ==> {
        &&& reported_count(non_linear_pattern(), text) == Some(m.non_linear_constraints as nat)
        &&& m.linear_constraints == match reported_count(linear_pattern(), text) {
            Some(l) => l,
            None => 0,
        }
        &&& m.total_constraints == m.non_linear_constraints + m.linear_constraints
    })
    &&& compiles ==> (res matches Err(e) ==> e@ == missing_count_message())
}

/// The message for a missing count does not read as a regex error.
proof fn lemma_missing_message_not_regex_error()
    ensures
        missing_count_message().take(13) != "Regex error: "@,
{
    reveal_strlit("Could not find 'non-linear constraints' in output");
    reveal_strlit("Regex error: ");
    assert(missing_count_message()[0] != "Regex error: "@[0]);
    assert(missing_count_message().take(13)[0] == missing_count_message()[0]);
}

/// Parses the Circom compiler's report into constraint counts.
///
/// The non-linear count is required; a missing linear count reads as 0. Errors:
/// `"Regex error: ..."` if the `regex` crate refuses a pattern, and
/// `"Could not find 'non-linear constraints' in output"` when the non-linear count
/// is absent or does not parse.
pub fn parse_circom_output(output: &str) -> (res: Result<CircomMetrics, String>)
    requires
        regex_compiles(non_linear_pattern()) && regex_compiles(linear_pattern()) ==> reported_counts_fit(output@),
    ensures
        report_result(output@, res),
{
    proof {
        reveal_strlit("Regex error: ");
        reveal_strlit("non-linear constraints:\\s*(\\d+)");
        reveal_strlit("(?m)^linear constraints:\\s*(\\d+)");
    }
    let nl_found = match regex_first_group_match("non-linear constraints:\\s*(\\d+)", output) {
        Ok(g) => g,
        Err(e) => {
            return Err(regex_error_message(&e));
        },
    };
    let l_found = match regex_first_group_match("(?m)^linear constraints:\\s*(\\d+)", output) {
        Ok(g) => g,
        Err(e) => {
            return Err(regex_error_message(&e));
        },
    };
    let res = metrics_from_groups(&nl_found, &l_found);
    proof {
        lemma_missing_message_not_regex_error();
    }
    res
}

/// Parses the Circom compiler's report as `parse_circom_output` does, or returns
/// `None` when the two patterns compile and the two counts the report gives do not
/// add up within `usize`.
pub fn parse_circom_output_checked(output: &str) -> (res: Option<Result<CircomMetrics, String>>)
    ensures
        res is None <==> (regex_compiles(non_linear_pattern()) && regex_compiles(linear_pattern())
            && !reported_counts_fit(output@)),
        res matches Some(r) ==> report_result(output@, r),
{
    proof {
        reveal_strlit("non-linear constraints:\\s*(\\d+)");
        reveal_strlit("(?m)^linear constraints:\\s*(\\d+)");
    }
    let nl_found = match regex_first_group_match("non-linear constraints:\\s*(\\d+)", output) {
        Ok(g) => g,
        Err(_) => {
            return Some(parse_circom_output(output));
        },
    };
    let l_found = match regex_first_group_match("(?m)^linear constraints:\\s*(\\d+)", output) {
        Ok(g) => g,
        Err(_) => {
            return Some(parse_circom_output(output));
        },
    };
    let fits = match &nl_found {
        Some(a) => match parse_usize(a.as_str()) {
            Some(nl) => {
                let l = match &l_found {
                    Some(t) => match parse_usize(t.as_str()) {
                        Some(v) => v,
                        None => 0,
                    },
                    None => 0,
                };
                nl.checked_add(l).is_some()
            },
            None => true,
        },
        None => true,
    };
    if fits {
        Some(parse_circom_output(output))
    } else {
        None
    }
}

} // verus!
