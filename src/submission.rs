//! Submission records, and the emissions found in their graded output.
use vstd::prelude::*;
use vstd::string::StrSliceExecFns;

use crate::emission::{
    chars_of, cut_at, find_char, lemma_cut_at, lemma_cut_found, lemma_cut_missing, line_emission,
    marked_parts, Emission, EmissionParseError,
};
use crate::emission_group::{map_of, pairs_of, views_of, EmissionsGroup};

verus! {

/// A student named on a submission.
#[derive(Clone, Debug)]
pub struct Submitter {
    pub name: String,
    pub sid: Option<String>,
    pub email: String,
}

/// Who may see a test item.
#[derive(Clone, Copy, Debug, PartialEq, Eq)]
pub enum Visibility {
    Hidden,
    AfterDueDate,
    AfterPublished,
    Visible,
}

/// How a name or an output is to be rendered.
#[derive(Clone, Copy, Debug, PartialEq, Eq)]
pub enum OutputFormat {
    Text,
    HTML,
    SimpleFormat,
    Markdown,
    ANSI,
}

/// The order of a leaderboard column.
#[derive(Clone, Copy, Debug, PartialEq, Eq)]
pub enum SortOrder {
    Ascending,
    Descending,
}

/// One test item of a graded submission.
#[derive(Debug)]
pub struct Test {
    pub name: String,
    pub tags: Option<Vec<String>>,
    pub number: String,
    pub output: Option<String>,
    pub status: String,
    pub visibility: Option<Visibility>,
    pub name_format: Option<OutputFormat>,
    pub output_format: Option<OutputFormat>,
}

/// The results of a submission that the autograder processed.
#[derive(Debug)]
pub struct ProcessedResults {
    pub tests: Vec<Test>,
    pub output: Option<String>,
    pub visibility: String,
    pub output_format: Option<String>,
    pub test_name_format: Option<String>,
    pub test_output_format: Option<String>,
}

/// The results of a submission that the autograder failed on.
#[derive(Debug)]
pub struct FailedResults {
    pub output: Option<String>,
}

/// What the autograder made of a submission.
#[derive(Debug)]
pub enum Results {
    Processed(ProcessedResults),
    Failed(FailedResults),
}

/// An earlier submission of the same students.
#[derive(Debug)]
pub struct HistoricalSubmission {
    pub submitters: Vec<Submitter>,
    pub created_at: String,
    pub status: String,
    pub results: Option<Results>,
    pub id: u32,
}

/// The submission that counts, with the ones it replaced.
#[derive(Debug)]
pub struct LatestSubmission {
    pub submitters: Vec<Submitter>,
    pub created_at: String,
    pub status: String,
    pub results: Option<Results>,
    pub history: Vec<HistoricalSubmission>,
}

/// A submission of either kind.
#[derive(Debug)]
pub enum Submission {
    Latest(LatestSubmission),
    Historical(HistoricalSubmission),
}

/// The start of the number of a test item that carries emissions.
pub open spec fn emission_prefix() -> Seq<char> {
    seq!['9', '9', '.']
}

/// A test item numbered `number` carries emissions.
pub open spec fn is_emission_number(number: Seq<char>) -> bool {
    number.len() >= 3 && number.take(3) == emission_prefix()
}

/// `line` without one carriage return at its end.
pub open spec fn strip_cr(line: Seq<char>) -> Seq<char> {
    if line.len() > 0 && line.last() == '\r' {
        line.drop_last()
    } else {
        line
    }
}

/// The lines of `text`: it is cut at each line feed, and a carriage return
/// just before one is dropped; a final line feed ends the last line and opens
/// no empty one.
pub open spec fn lines_of(text: Seq<char>) -> Seq<Seq<char>>
    decreases text.len(),
    via lines_of_decreases
{
    if text.len() == 0 {
        Seq::empty()
    } else {
        match cut_at(text, '\n') {
            Some((line, rest)) => seq![strip_cr(line)] + lines_of(rest),
            None => seq![text],
        }
    }
}

#[via_fn]
proof fn lines_of_decreases(text: Seq<char>) {
    lemma_cut_at(text, '\n');
}

/// The lines of the test items of `tests` that carry emissions, in order.
pub open spec fn test_lines(tests: Seq<Test>) -> Seq<Seq<char>>
    decreases tests.len(),
{
    if tests.len() == 0 {
        Seq::empty()
    } else {
        let t = tests.last();
        test_lines(tests.drop_last()) + if is_emission_number(t.number@) && t.output is Some {
            lines_of(t.output->Some_0@)
        } else {
            Seq::empty()
        }
    }
}

/// The lines of `results` that may carry emissions.
pub open spec fn result_lines(results: Option<Results>) -> Seq<Seq<char>> {
    match results {
        Some(Results::Processed(p)) => test_lines(p.tests@),
        _ => Seq::empty(),
    }
}

/// The emissions that `lines` carry, in order.
pub open spec fn carried(lines: Seq<Seq<char>>) -> Seq<(Seq<char>, Seq<char>)> {
    lines.filter_map(|l: Seq<char>| line_emission(l))
}

/// The lines of `lines` that carry no emission.
pub open spec fn unparsed(lines: Seq<Seq<char>>) -> Seq<Seq<char>> {
    lines.filter_map(
        |l: Seq<char>|
            if line_emission(l) is None {
                Some(l)
            } else {
                None
            },
    )
}

/// Whether a test item numbered `number` carries emissions.
pub fn is_emission_test(number: &String) -> (r: bool)
    ensures
        r == is_emission_number(number@),
{
    let cs = chars_of(number.as_str());
    let r = cs.len() >= 3 && cs[0] == '9' && cs[1] == '9' && cs[2] == '.';
    proof {
        if cs.len() >= 3 {
            if r {
                assert(number@.take(3) =~= emission_prefix());
            } else {
                assert(number@.take(3) != emission_prefix()) by {
                    if number@.take(3) == emission_prefix() {
                        assert(number@.take(3)[0] == '9');
                        assert(number@.take(3)[1] == '9');
                        assert(number@.take(3)[2] == '.');
                    }
                }
            }
        }
    }
    r
}

/// The lines of `text`, as `lines_of` gives them.
pub fn output_lines(text: &str) -> (r: Vec<String>)
    ensures
        views_of(r@) == lines_of(text@),
{
    let cs = chars_of(text);
    let ghost s = text@;
    let mut r: Vec<String> = Vec::new();
    let mut start: usize = 0;
    assert(s.skip(0) =~= s);
    while start < cs.len()
        invariant
            cs@ == s,
            s == text@,
            start <= cs.len(),
            lines_of(s) == views_of(r@) + lines_of(s.skip(start as int)),
        decreases cs.len() - start,
    {
        let ghost before = views_of(r@);
        assert(s.subrange(start as int, s.len() as int) =~= s.skip(start as int));
        match find_char(&cs, start, '\n') {
            Some(p) => {
                proof {
                    lemma_cut_found(s, start as int, p as int, '\n');
                    assert(s.subrange(p + 1, s.len() as int) =~= s.skip(p + 1));
                }
                let end: usize = if p > start && cs[p - 1] == '\r' {
                    p - 1
                } else {
                    p
                };
                proof {
                    let line = s.subrange(start as int, p as int);
                    if p > start && cs@[p - 1] == '\r' {
                        assert(strip_cr(line) =~= s.subrange(start as int, end as int));
                    } else {
                        assert(strip_cr(line) =~= s.subrange(start as int, end as int));
                    }
                }
                r.push(text.substring_char(start, end).to_owned());
                assert(views_of(r@) =~= before.push(s.subrange(start as int, end as int)));
                start = p + 1;
            },
            None => {
                proof {
                    lemma_cut_missing(s, start as int, '\n');
                    assert(s.skip(cs.len() as int) =~= Seq::<char>::empty());
                }
                r.push(text.substring_char(start, cs.len()).to_owned());
                assert(views_of(r@) =~= before.push(s.skip(start as int)));
                start = cs.len();
            },
        }
    }
    assert(s.skip(start as int) =~= Seq::<char>::empty());
    assert(views_of(r@) + Seq::<Seq<char>>::empty() =~= views_of(r@));
    r
}

/// The lines of `results` that may carry emissions: those of the outputs of
/// its test items numbered with the emission prefix.
pub fn emission_lines(results: &Option<Results>) -> (r: Vec<String>)
    ensures
        views_of(r@) == result_lines(*results),
{
    let mut r: Vec<String> = Vec::new();
    match results {
        Some(Results::Processed(p)) => {
            assert(views_of(r@) =~= test_lines(p.tests@.take(0)));
            for i in 0..p.tests.len()
                invariant
                    views_of(r@) == test_lines(p.tests@.take(i as int)),
            {
                let t = &p.tests[i];
                let ghost before = views_of(r@);
                assert(p.tests@.take(i + 1).drop_last() =~= p.tests@.take(i as int));
                assert(p.tests@.take(i + 1).last() == p.tests@[i as int]);
                if is_emission_test(&t.number) {
                    match &t.output {
                        Some(out) => {
                            let mut ls = output_lines(out.as_str());
                            let ghost added = views_of(ls@);
                            r.append(&mut ls);
                            assert(views_of(r@) =~= before + added);
                        },
                        None => {
                            assert(before + Seq::<Seq<char>>::empty() =~= before);
                        },
                    }
                } else {
                    assert(before + Seq::<Seq<char>>::empty() =~= before);
                }
            }
            assert(p.tests@.take(p.tests.len() as int) =~= p.tests@);
        },
        _ => {
            assert(views_of(r@) =~= Seq::<Seq<char>>::empty());
        },
    }
    r
}

/// The emissions that `lines` carry, in order, and the error of each line
/// that carries none: a format error where the line lacks two markers, a
/// decode error otherwise.
pub fn parse_lines(lines: &Vec<String>) -> (r: (Vec<Emission>, Vec<EmissionParseError>))
    ensures
        pairs_of(r.0@) == carried(views_of(lines@)),
        r.1.len() == unparsed(views_of(lines@)).len(),
        forall|i: int|
            0 <= i < r.1.len() ==> ((#[trigger] r.1@[i]) is FormatError <==> marked_parts(
                unparsed(views_of(lines@))[i],
            ) is None),
{
    let ghost ls = views_of(lines@);
    let mut found: Vec<Emission> = Vec::new();
    let mut failed: Vec<EmissionParseError> = Vec::new();
    assert(ls.take(0) =~= Seq::<Seq<char>>::empty());
    assert(pairs_of(found@) =~= carried(ls.take(0)));
    for i in 0..lines.len()
        invariant
            ls == views_of(lines@),
            pairs_of(found@) == carried(ls.take(i as int)),
            failed.len() == unparsed(ls.take(i as int)).len(),
            forall|j: int|
                0 <= j < failed.len() ==> ((#[trigger] failed@[j]) is FormatError <==> marked_parts(
                    unparsed(ls.take(i as int))[j],
                ) is None),
    {
        let ghost before = pairs_of(found@);
        let ghost before_unparsed = unparsed(ls.take(i as int));
        assert(ls.take(i + 1).drop_last() =~= ls.take(i as int));
        assert(ls.take(i + 1).last() == lines@[i as int]@);
        match Emission::parse(lines[i].as_str()) {
            Ok(e) => {
                found.push(e);
                assert(pairs_of(found@) =~= before + seq![(e.id@, e.value@)]);
            },
            Err(err) => {
                failed.push(err);
                assert(unparsed(ls.take(i + 1)) =~= before_unparsed + seq![ls[i as int]]);
            },
        }
    }
    assert(ls.take(lines.len() as int) =~= ls);
    (found, failed)
}

/// The emission index of `results`, for the submission keyed `submission`,
/// and the error of each candidate line that carries no emission.
pub fn parse_results(results: &Option<Results>, submission: String) -> (r: (
    EmissionsGroup,
    Vec<EmissionParseError>,
))
    ensures
        r.0@ == map_of(carried(result_lines(*results))),
        r.0.submission_key() == submission@,
        r.1.len() == unparsed(result_lines(*results)).len(),
{
    let lines = emission_lines(results);
    let (found, failed) = parse_lines(&lines);
    (EmissionsGroup::new(submission, found), failed)
}

impl HistoricalSubmission {
    pub fn submitters(&self) -> (r: &Vec<Submitter>)
        ensures
            r@ == self.submitters@,
    {
        &self.submitters
    }

    pub fn created_at(&self) -> (r: &String)
        ensures
            r@ == self.created_at@,
    {
        &self.created_at
    }

    pub fn status(&self) -> (r: &String)
        ensures
            r@ == self.status@,
    {
        &self.status
    }

    pub fn results(&self) -> (r: &Option<Results>)
        ensures
            *r == self.results,
    {
        &self.results
    }

    /// The emission index of this submission, keyed `submission`, and the
    /// error of each candidate line that carries no emission.
    pub fn parse_emissions(&self, submission: String) -> (r: (EmissionsGroup, Vec<EmissionParseError>))
        ensures
            r.0@ == map_of(carried(result_lines(self.results))),
            r.0.submission_key() == submission@,
            r.1.len() == unparsed(result_lines(self.results)).len(),
    {
        parse_results(&self.results, submission)
    }
}

impl LatestSubmission {
    pub fn submitters(&self) -> (r: &Vec<Submitter>)
        ensures
            r@ == self.submitters@,
    {
        &self.submitters
    }

    pub fn created_at(&self) -> (r: &String)
        ensures
            r@ == self.created_at@,
    {
        &self.created_at
    }

    pub fn status(&self) -> (r: &String)
        ensures
            r@ == self.status@,
    {
        &self.status
    }

    pub fn results(&self) -> (r: &Option<Results>)
        ensures
            *r == self.results,
    {
        &self.results
    }

    /// The emission index of this submission, keyed `submission`, and the
    /// error of each candidate line that carries no emission.
    pub fn parse_emissions(&self, submission: String) -> (r: (EmissionsGroup, Vec<EmissionParseError>))
        ensures
            r.0@ == map_of(carried(result_lines(self.results))),
            r.0.submission_key() == submission@,
            r.1.len() == unparsed(result_lines(self.results)).len(),
    {
        parse_results(&self.results, submission)
    }
}

impl Submission {
    /// The results of the submission, whichever its kind.
    pub open spec fn results_of(&self) -> Option<Results> {
        match self {
            Submission::Latest(s) => s.results,
            Submission::Historical(s) => s.results,
        }
    }

    pub fn submitters(&self) -> (r: &Vec<Submitter>)
        ensures
            r@ == match self {
                Submission::Latest(s) => s.submitters@,
                Submission::Historical(s) => s.submitters@,
            },
    {
        match self {
            Submission::Latest(s) => &s.submitters,
            Submission::Historical(s) => &s.submitters,
        }
    }

    pub fn created_at(&self) -> (r: &String)
        ensures
            r@ == match self {
                Submission::Latest(s) => s.created_at@,
                Submission::Historical(s) => s.created_at@,
            },
    {
        match self {
            Submission::Latest(s) => &s.created_at,
            Submission::Historical(s) => &s.created_at,
        }
    }

    pub fn status(&self) -> (r: &String)
        ensures
            r@ == match self {
                Submission::Latest(s) => s.status@,
                Submission::Historical(s) => s.status@,
            },
    {
        match self {
            Submission::Latest(s) => &s.status,
            Submission::Historical(s) => &s.status,
        }
    }

    pub fn results(&self) -> (r: &Option<Results>)
        ensures
            *r == self.results_of(),
    {
        match self {
            Submission::Latest(s) => &s.results,
            Submission::Historical(s) => &s.results,
        }
    }

    /// The emission index of this submission, keyed `submission`, and the
    /// error of each candidate line that carries no emission.
    pub fn parse_emissions(&self, submission: String) -> (r: (EmissionsGroup, Vec<EmissionParseError>))
        ensures
            r.0@ == map_of(carried(result_lines(self.results_of()))),
            r.0.submission_key() == submission@,
            r.1.len() == unparsed(result_lines(self.results_of())).len(),
    {
        parse_results(self.results(), submission)
    }
}

} // verus!
