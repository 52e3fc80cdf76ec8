//! The per-grapheme outcome of checking a suggested word, its one-char
//! notation (`-`, `+`, `?`) and the parsing of a typed-in check result.
use crate::text;
use vstd::prelude::*;
use vstd::string::*;

verus! {

/// How one grapheme of a suggested word relates to the hidden word.
#[derive(Copy, Clone, Eq, PartialEq, Debug, Hash, Structural)]
pub enum CheckResult {
    NotInWord,
    ExactPlace,
    InWord,
}

/// The char that stands for a check result.
pub open spec fn result_char(r: CheckResult) -> char {
    match r {
        CheckResult::NotInWord => '-',
        CheckResult::ExactPlace => '+',
        CheckResult::InWord => '?',
    }
}

/// The check result that a one-grapheme text stands for, if any.
pub open spec fn parse_result(value: Seq<char>) -> Option<CheckResult> {
    if value == seq!['-'] {
        Some(CheckResult::NotInWord)
    } else if value == seq!['+'] {
        Some(CheckResult::ExactPlace)
    } else if value == seq!['?'] {
        Some(CheckResult::InWord)
    } else {
        None
    }
}

/// Reading the notation of a check result gives that check result back.
pub proof fn lemma_result_char_round_trip(r: CheckResult)
    ensures
        parse_result(seq![result_char(r)]) == Some(r),
{
    assert(seq!['-'] != seq!['+']) by {
        assert(seq!['-'][0] != seq!['+'][0]);
    }
    assert(seq!['-'] != seq!['?']) by {
        assert(seq!['-'][0] != seq!['?'][0]);
    }
    assert(seq!['+'] != seq!['?']) by {
        assert(seq!['+'][0] != seq!['?'][0]);
    }
}

/// A text that is not the notation of a check result.
#[derive(Debug, Eq, PartialEq)]
pub struct CheckResultError(pub String);

/// Why a typed-in check result could not be parsed.
#[derive(Debug, Eq, PartialEq)]
pub enum ParseCheckResultError {
    CheckResultError(CheckResultError),
    InvalidStringLength(usize),
}

/// One of two kinds of parsed check results: plain results, or results that
/// each carry the grapheme they were given for.
#[derive(Debug, Eq, PartialEq)]
pub enum Either<L, R> {
    Left(L),
    Right(R),
}

/// The outcome of parsing a typed-in check result.
pub type ParseCheckResult<'a> = Result<
    Either<Vec<CheckResult>, Vec<(CheckResult, &'a str)>>,
    ParseCheckResultError,
>;

impl CheckResult {
    /// The char that stands for this result.
    pub fn to_char(self) -> (c: char)
        ensures
            c == result_char(self),
    {
        match self {
            CheckResult::NotInWord => '-',
            CheckResult::ExactPlace => '+',
            CheckResult::InWord => '?',
        }
    }

    /// The text of this result: its char alone.
    pub fn to_string(&self) -> (s: String)
        ensures
            s@ == seq![result_char(*self)],
    {
        match self {
            CheckResult::NotInWord => {
                let s = String::from_str("-");
                proof {
                    reveal_strlit("-");
                }
                s
            },
            CheckResult::ExactPlace => {
                let s = String::from_str("+");
                proof {
                    reveal_strlit("+");
                }
                s
            },
            CheckResult::InWord => {
                let s = String::from_str("?");
                proof {
                    reveal_strlit("?");
                }
                s
            },
        }
    }

    /// Reads a check result from its notation.
    pub fn try_from(value: &str) -> (r: Result<CheckResult, CheckResultError>)
        ensures
            match r {
                Ok(c) => parse_result(value@) == Some(c),
                Err(e) => parse_result(value@) is None && e.0@ == value@,
            },
    {
        if value.unicode_len() == 1 {
            let c = value.get_char(0);
            proof {
                assert(seq![c] =~= value@);
            }
            if c == '-' {
                return Ok(CheckResult::NotInWord);
            } else if c == '+' {
                return Ok(CheckResult::ExactPlace);
            } else if c == '?' {
                return Ok(CheckResult::InWord);
            }
            proof {
                assert(seq!['-'][0] == '-');
                assert(seq!['+'][0] == '+');
                assert(seq!['?'][0] == '?');
            }
        }
        Err(CheckResultError(value.to_owned()))
    }
}

impl From<CheckResult> for char {
    fn from(result: CheckResult) -> (c: char) {
        result.to_char()
    }
}

impl vstd::std_specs::convert::FromSpecImpl<CheckResult> for char {
    open spec fn obeys_from_spec() -> bool {
        true
    }

    open spec fn from_spec(v: CheckResult) -> char {
        result_char(v)
    }
}

/// Every grapheme is the notation of a check result.
pub open spec fn all_results(gs: Seq<Seq<char>>) -> bool {
    forall|i: int| 0 <= i < gs.len() ==> (#[trigger] parse_result(gs[i])) is Some
}

/// `i` is the first grapheme that is not the notation of a check result.
pub open spec fn first_invalid(gs: Seq<Seq<char>>, i: int) -> bool {
    &&& 0 <= i < gs.len()
    &&& parse_result(gs[i]) is None
    &&& forall|k: int| 0 <= k < i ==> (#[trigger] parse_result(gs[k])) is Some
}

/// Every second grapheme (counting from the second one) is the notation of a
/// check result, for the `n` leading pairs.
pub open spec fn all_paired_results(gs: Seq<Seq<char>>, n: int) -> bool {
    forall|k: int| 0 <= k < n ==> (#[trigger] parse_result(gs[2 * k + 1])) is Some
}

/// Pair `k` is the first whose second grapheme is not a check result.
pub open spec fn first_invalid_pair(gs: Seq<Seq<char>>, k: int, n: int) -> bool {
    &&& 0 <= k < n
    &&& parse_result(gs[2 * k + 1]) is None
    &&& forall|j: int| 0 <= j < k ==> (#[trigger] parse_result(gs[2 * j + 1])) is Some
}

/// Reads one check result from each grapheme; fails on the first grapheme that
/// is not a check result.
pub fn parse_check_result_inner(graphemes: Vec<&str>) -> (r: Result<
    Vec<CheckResult>,
    ParseCheckResultError,
>)
    ensures
        match r {
            Ok(v) => all_results(graphemes.deep_view()) && v@.len() == graphemes@.len() && (forall|
                i: int,
            |
                0 <= i < v@.len() ==> Some(#[trigger] v@[i]) == parse_result(graphemes@[i]@)),
            Err(ParseCheckResultError::CheckResultError(e)) => exists|i: int|
                #[trigger] first_invalid(graphemes.deep_view(), i) && e.0@ == graphemes@[i]@,
            Err(ParseCheckResultError::InvalidStringLength(_)) => false,
        },
{
    let ghost gs = graphemes.deep_view();
    let mut out: Vec<CheckResult> = Vec::new();
    let mut i: usize = 0;
    while i < graphemes.len()
        invariant
            gs == graphemes.deep_view(),
            gs.len() == graphemes@.len(),
            i <= graphemes.len(),
            out@.len() == i,
            forall|k: int| 0 <= k < i ==> Some(#[trigger] out@[k]) == parse_result(graphemes@[k]@),
        decreases graphemes.len() - i,
    {
        assert(gs[i as int] == graphemes@[i as int]@);
        match CheckResult::try_from(graphemes[i]) {
            Ok(c) => out.push(c),
            Err(e) => {
                proof {
                    assert forall|k: int| 0 <= k < i implies (#[trigger] parse_result(gs[k])) is Some by {
                        assert(gs[k] == graphemes@[k]@);
                        assert(Some(out@[k]) == parse_result(graphemes@[k]@));
                    }
                    assert(first_invalid(gs, i as int));
                }
                return Err(ParseCheckResultError::CheckResultError(e));
            },
        }
        i += 1;
    }
    proof {
        assert forall|k: int| 0 <= k < gs.len() implies (#[trigger] parse_result(gs[k])) is Some by {
            assert(gs[k] == graphemes@[k]@);
            assert(Some(out@[k]) == parse_result(graphemes@[k]@));
        }
    }
    Ok(out)
}

/// Reads pairs of graphemes, each a grapheme of the word followed by its check
/// result; fails on the first pair whose second grapheme is not a check
/// result. A trailing unpaired grapheme is ignored.
pub fn parse_check_result_inner_with_word<'a>(graphemes: Vec<&'a str>) -> (r: Result<
    Vec<(CheckResult, &'a str)>,
    ParseCheckResultError,
>)
    ensures
        match r {
            Ok(v) => all_paired_results(graphemes.deep_view(), (graphemes@.len() / 2) as int) && v@.len()
                == graphemes@.len() / 2 && (forall|k: int|
                0 <= k < v@.len() ==> Some((#[trigger] v@[k]).0) == parse_result(
                    graphemes@[2 * k + 1]@,
                ) && v@[k].1 == graphemes@[2 * k]),
            Err(ParseCheckResultError::CheckResultError(e)) => exists|k: int|
                #[trigger] first_invalid_pair(graphemes.deep_view(), k, (graphemes@.len() / 2) as int) && e.0@
                    == graphemes@[2 * k + 1]@,
            Err(ParseCheckResultError::InvalidStringLength(_)) => false,
        },
{
    let ghost gs = graphemes.deep_view();
    let len = graphemes.len();
    let n = len / 2;
    let mut out: Vec<(CheckResult, &'a str)> = Vec::new();
    let mut k: usize = 0;
    while k < n
        invariant
            gs == graphemes.deep_view(),
            gs.len() == graphemes@.len(),
            len == graphemes@.len(),
            n == len / 2,
            k <= n,
            out@.len() == k,
            forall|j: int|
                0 <= j < k ==> Some((#[trigger] out@[j]).0) == parse_result(graphemes@[2 * j + 1]@)
                    && out@[j].1 == graphemes@[2 * j],
        decreases n - k,
    {
        assert(2 * k + 1 < graphemes@.len()) by (nonlinear_arith)
            requires
                k < n,
                n == len / 2,
                len == graphemes@.len(),
        ;
        let grapheme = graphemes[2 * k];
        let check = graphemes[2 * k + 1];
        assert(gs[2 * k + 1] == graphemes@[2 * k + 1]@);
        match CheckResult::try_from(check) {
            Ok(c) => out.push((c, grapheme)),
            Err(e) => {
                proof {
                    assert forall|j: int| 0 <= j < k implies (#[trigger] parse_result(
                        gs[2 * j + 1],
                    )) is Some by {
                        assert(gs[2 * j + 1] == graphemes@[2 * j + 1]@);
                        assert(Some(out@[j].0) == parse_result(graphemes@[2 * j + 1]@));
                    }
                    assert(first_invalid_pair(gs, k as int, n as int));
                }
                return Err(ParseCheckResultError::CheckResultError(e));
            },
        }
        k += 1;
    }
    proof {
        assert forall|j: int| 0 <= j < n implies (#[trigger] parse_result(gs[2 * j + 1])) is Some by {
            assert(gs[2 * j + 1] == graphemes@[2 * j + 1]@);
            assert(Some(out@[j].0) == parse_result(graphemes@[2 * j + 1]@));
        }
    }
    Ok(out)
}

/// The results read from graphemes `gs`, one per grapheme.
pub open spec fn results_of(gs: Seq<Seq<char>>, v: Seq<CheckResult>) -> bool {
    &&& all_results(gs)
    &&& v.len() == gs.len()
    &&& forall|i: int| 0 <= i < v.len() ==> Some(#[trigger] v[i]) == parse_result(gs[i])
}

/// The grapheme/result pairs read from the `n` leading pairs of graphemes `gs`.
pub open spec fn pairs_of(gs: Seq<Seq<char>>, n: int, v: Seq<(CheckResult, &str)>) -> bool {
    &&& all_paired_results(gs, n)
    &&& v.len() == n
    &&& forall|k: int|
        0 <= k < n ==> Some((#[trigger] v[k]).0) == parse_result(gs[2 * k + 1]) && v[k].1@ == gs[2
            * k]
}

/// `r` is what a typed-in check result with graphemes `gs` parses to, for a
/// word of `word_len` graphemes.
pub open spec fn parsed_as(gs: Seq<Seq<char>>, word_len: usize, r: ParseCheckResult) -> bool {
    if gs.len() == word_len {
        match r {
            Ok(Either::Left(v)) => results_of(gs, v@),
            Err(ParseCheckResultError::CheckResultError(e)) => exists|i: int|
                #[trigger] first_invalid(gs, i) && e.0@ == gs[i],
            _ => false,
        }
    } else if gs.len() == 2 * word_len {
        match r {
            Ok(Either::Right(v)) => pairs_of(gs, word_len as int, v@),
            Err(ParseCheckResultError::CheckResultError(e)) => exists|k: int|
                #[trigger] first_invalid_pair(gs, k, word_len as int) && e.0@ == gs[2 * k + 1],
            _ => false,
        }
    } else {
        r == ParseCheckResult::Err(ParseCheckResultError::InvalidStringLength(gs.len() as usize))
    }
}

/// What a typed-in check result parses to, given its graphemes: one result
/// per grapheme when there are `word_len` of them; grapheme/result pairs
/// when there are twice as many; an invalid length otherwise.
pub fn parse_check_result_graphemes<'a>(graphemes: Vec<&'a str>, word_len: usize) -> (r:
    ParseCheckResult<'a>)
    ensures
        parsed_as(graphemes.deep_view(), word_len, r),
{
    let ghost gs = graphemes.deep_view();
    let len = graphemes.len();
    if len == word_len {
        match parse_check_result_inner(graphemes) {
            Ok(v) => {
                proof {
                    assert forall|i: int| 0 <= i < v@.len() implies Some(#[trigger] v@[i])
                        == parse_result(gs[i]) by {
                        assert(gs[i] == graphemes@[i]@);
                    }
                }
                Ok(Either::Left(v))
            },
            Err(e) => Err(e),
        }
    } else if len % 2 == 0 && len / 2 == word_len {
        match parse_check_result_inner_with_word(graphemes) {
            Ok(v) => {
                proof {
                    assert forall|k: int| 0 <= k < word_len implies Some((#[trigger] v@[k]).0)
                        == parse_result(gs[2 * k + 1]) && v@[k].1@ == gs[2 * k] by {
                        assert(gs[2 * k + 1] == graphemes@[2 * k + 1]@);
                        assert(gs[2 * k] == graphemes@[2 * k]@);
                    }
                }
                Ok(Either::Right(v))
            },
            Err(e) => Err(e),
        }
    } else {
        Err(ParseCheckResultError::InvalidStringLength(len))
    }
}

/// Parses a typed-in check result for a word of `word_len` graphemes: either
/// `word_len` result chars (`--++?`), or each grapheme of the word followed
/// by its result char (`a-b-c+d+e?`).
pub fn parse_check_result(s: &str, word_len: usize) -> (r: ParseCheckResult<'_>)
    ensures
        parsed_as(text::extended_graphemes(s@), word_len, r),
{
    let graphemes = text::graphemes(s);
    parse_check_result_graphemes(graphemes, word_len)
}

} // verus!
