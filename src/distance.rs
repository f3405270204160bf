use vstd::prelude::*;

verus! {

/// The edit distance between two character sequences: the least number of
/// single-character insertions, deletions and substitutions that turn one
/// into the other (no transpositions).
pub open spec fn levenshtein_distance(a: Seq<char>, b: Seq<char>) -> nat
    decreases a.len() + b.len(),
{
    if a.len() == 0 {
        b.len()
    } else if b.len() == 0 {
        a.len()
    } else {
        let cost: nat = if a.last() == b.last() { 0 } else { 1 };
        let substitute = levenshtein_distance(a.drop_last(), b.drop_last()) + cost;
        let delete = levenshtein_distance(a.drop_last(), b) + 1;
        let insert = levenshtein_distance(a, b.drop_last()) + 1;
        min_of_three(substitute, delete, insert)
    }
}

pub open spec fn min_of_three(x: nat, y: nat, z: nat) -> nat {
    if x <= y && x <= z {
        x
    } else if y <= z {
        y
    } else {
        z
    }
}

/// A sequence is at distance zero from itself.
pub proof fn lemma_levenshtein_self(s: Seq<char>)
    ensures
        levenshtein_distance(s, s) == 0,
    decreases s.len(),
{
    if s.len() > 0 {
        lemma_levenshtein_self(s.drop_last());
    }
}

/// The edit distance does not depend on which sequence comes first.
pub proof fn lemma_levenshtein_symmetric(a: Seq<char>, b: Seq<char>)
    ensures
        levenshtein_distance(a, b) == levenshtein_distance(b, a),
    decreases a.len() + b.len(),
{
    if a.len() > 0 && b.len() > 0 {
        lemma_levenshtein_symmetric(a.drop_last(), b.drop_last());
        lemma_levenshtein_symmetric(a.drop_last(), b);
        lemma_levenshtein_symmetric(a, b.drop_last());
    }
}

/// Relies on strsim::levenshtein, which counts the least number of
/// single-character insertions, deletions and substitutions between the
/// characters of the two strings.
#[verifier::external_body]
fn levenshtein(a: &str, b: &str) -> (r: usize)
    ensures
        r as nat == levenshtein_distance(a@, b@),
{
    strsim::levenshtein(a, b)
}

/// The Jaro-Winkler similarity of two character sequences, in IEEE-754
/// double precision and read as the unsigned integer of its bit pattern.
pub uninterp spec fn jaro_winkler_bits(a: Seq<char>, b: Seq<char>) -> u64;

/// Relies on strsim::jaro_winkler, a similarity between 0.0 and 1.0 that
/// depends on the characters of the two strings alone. It is handed on as its
/// bit pattern: for numbers that are not negative, the pattern read as an
/// unsigned integer orders as the numbers do.
#[verifier::external_body]
fn jaro_winkler(a: &str, b: &str) -> (r: u64)
    ensures
        r == jaro_winkler_bits(a@, b@),
{
    strsim::jaro_winkler(a, b).to_bits()
}

/// How candidates are compared with the target.
#[derive(Clone, Copy, Debug, PartialEq, Eq, Structural)]
pub enum Metric {
    /// Edit distance: a lower score is more similar.
    Levenshtein,
    /// Jaro-Winkler similarity: a higher score is more similar.
    JaroWinkler,
}

/// Why the command line could not be accepted.
#[derive(Clone, Copy, Debug, PartialEq, Eq, Structural)]
pub enum UsageError {
    /// Both metrics were asked for.
    ConflictingMetrics,
}

/// Picks the metric from the two flags that select one: Levenshtein unless
/// Jaro-Winkler is asked for, and an error when both are.
pub fn metric_from_flags(levenshtein: bool, jaro_winkler: bool) -> (r: Result<Metric, UsageError>)
    ensures
        levenshtein && jaro_winkler ==> r == Err::<Metric, UsageError>(UsageError::ConflictingMetrics),
        !levenshtein && jaro_winkler ==> r == Ok::<Metric, UsageError>(Metric::JaroWinkler),
        !jaro_winkler ==> r == Ok::<Metric, UsageError>(Metric::Levenshtein),
{
    if levenshtein && jaro_winkler {
        Err(UsageError::ConflictingMetrics)
    } else if jaro_winkler {
        Ok(Metric::JaroWinkler)
    } else {
        Ok(Metric::Levenshtein)
    }
}

/// The score of `candidate` against `target` under `metric`: the edit distance,
/// or the bit pattern of the Jaro-Winkler similarity.
pub open spec fn score_of(metric: Metric, target: Seq<char>, candidate: Seq<char>) -> int {
    match metric {
        Metric::Levenshtein => levenshtein_distance(target, candidate) as int,
        Metric::JaroWinkler => jaro_winkler_bits(target, candidate) as int,
    }
}

/// Scores one candidate against the target.
pub fn score(target: &str, candidate: &str, metric: Metric) -> (r: u64)
    ensures
        r as int == score_of(metric, target@, candidate@),
{
    match metric {
        Metric::Levenshtein => levenshtein(target, candidate) as u64,
        Metric::JaroWinkler => jaro_winkler(target, candidate),
    }
}

} // verus!
