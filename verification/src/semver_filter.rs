//! The version filter: keeps the rows whose version a requirement admits.
//!
//! Versions and requirements are parsed and matched by the `semver` crate.
use vstd::prelude::*;
use semver::Version;
use semver::VersionReq;
use crate::error::MoleError;
use crate::parser::data::OutputRow;
use crate::parser::data::OutputRowView;
use crate::parser::data::rows_view;

verus! {

/// `semver::Version`, a parsed version.
#[verifier::external_type_specification]
#[verifier::external_body]
pub struct ExVersion(semver::Version);

/// `semver::VersionReq`, a parsed version requirement.
#[verifier::external_type_specification]
#[verifier::external_body]
pub struct ExVersionReq(semver::VersionReq);

/// The version that the `semver` crate reads from a text; `None` where it
/// rejects the text.
pub uninterp spec fn parsed_version(text: Seq<char>) -> Option<Version>;

/// The requirement that the `semver` crate reads from a text; `None` where
/// it rejects the text.
pub uninterp spec fn parsed_requirement(text: Seq<char>) -> Option<VersionReq>;

/// Whether the `semver` crate finds that a requirement admits a version.
pub uninterp spec fn admits(requirement: VersionReq, version: Version) -> bool;

/// Trusted: `semver::Version::parse`. The version it returns is the one
/// named `parsed_version`; its error is dropped.
#[verifier::external_body]
fn parse_version(text: &str) -> (r: Option<Version>)
    ensures
        r == parsed_version(text@),
{
    Version::parse(text).ok()
}

/// Trusted: `semver::VersionReq::parse`. It returns the requirement named
/// `parsed_requirement`, or its error where there is none.
#[verifier::external_body]
fn parse_requirement(text: &str) -> (r: Result<VersionReq, semver::Error>)
    ensures
        r is Ok <==> parsed_requirement(text@) is Some,
        r is Ok ==> parsed_requirement(text@) == Some(r->Ok_0),
{
    VersionReq::parse(text)
}

/// Trusted: `semver::VersionReq::matches`.
#[verifier::external_body]
fn requirement_matches(requirement: &VersionReq, version: &Version) -> (r: bool)
    ensures
        r == admits(*requirement, *version),
{
    requirement.matches(version)
}

/// Whether a row with the given version passes the filter: every row where
/// there is no filter; else those whose version parses and is admitted.
pub open spec fn passes(filter: Option<VersionReq>, version: Seq<char>) -> bool {
    match filter {
        None => true,
        Some(requirement) => match parsed_version(version) {
            Some(v) => admits(requirement, v),
            None => false,
        },
    }
}

/// The test that a row passes the filter.
pub open spec fn kept(filter: Option<VersionReq>) -> spec_fn(OutputRowView) -> bool {
    |r: OutputRowView| passes(filter, r.dep_version)
}

/// A filter that every item passes keeps the sequence as it is.
pub proof fn lemma_filter_keeps_all<A>(s: Seq<A>, pred: spec_fn(A) -> bool)
    requires
        forall|i: int| 0 <= i < s.len() ==> pred(#[trigger] s[i]),
    ensures
        s.filter(pred) == s,
    decreases s.len(),
{
    reveal(Seq::filter);
    if s.len() > 0 {
        lemma_filter_keeps_all(s.drop_last(), pred);
        assert(s.drop_last().push(s.last()) =~= s);
    }
}

/// Without a requirement the filter keeps every row, in order.
pub proof fn lemma_no_filter_keeps_all(rows: Seq<OutputRowView>)
    ensures
        rows.filter(kept(None)) == rows,
{
    lemma_filter_keeps_all(rows, kept(None));
}

/// The filter that a filter expression stands for. No expression gives no
/// filter; an expression that the `semver` crate rejects gives its error.
pub fn parse_filter(expression: Option<&str>) -> (r: Result<Option<VersionReq>, MoleError>)
    ensures
        expression is None ==> r == Ok::<Option<VersionReq>, MoleError>(None),
        expression is Some ==> (r is Ok <==> parsed_requirement(expression->0@) is Some),
        expression is Some && r is Ok ==> r->Ok_0 == parsed_requirement(expression->0@),
        r is Err ==> r->Err_0 is SemverError,
{
    match expression {
        None => Ok(None),
        Some(text) => match parse_requirement(text) {
            Ok(requirement) => Ok(Some(requirement)),
            Err(e) => Err(MoleError::SemverError(e)),
        },
    }
}

/// Whether a row passes the filter.
pub fn row_passes(filter: &Option<VersionReq>, row: &OutputRow) -> (r: bool)
    ensures
        r == passes(*filter, row@.dep_version),
{
    match filter {
        None => true,
        Some(requirement) => match parse_version(row.dep_version.as_str()) {
            Some(version) => requirement_matches(requirement, &version),
            None => false,
        },
    }
}

/// Keeps the rows that pass the filter, in their order. Without a filter
/// the rows come back as they are.
pub fn filter(requirement: Option<VersionReq>, data: Vec<OutputRow>) -> (out: Vec<OutputRow>)
    ensures
        rows_view(out@) == rows_view(data@).filter(kept(requirement)),
        requirement is None ==> rows_view(out@) == rows_view(data@),
{
    let mut out: Vec<OutputRow> = Vec::new();
    let ghost all = rows_view(data@);
    let ghost keep = kept(requirement);
    let mut i: usize = 0;
    proof {
        reveal(Seq::filter);
        assert(all.take(0) =~= Seq::<OutputRowView>::empty());
        assert(rows_view(out@) =~= all.take(0).filter(keep));
    }
    while i < data.len()
        invariant
            0 <= i <= data.len(),
            all == rows_view(data@),
            keep == kept(requirement),
            rows_view(out@) == all.take(i as int).filter(keep),
        decreases data.len() - i,
    {
        let row = &data[i];
        let ghost before = rows_view(out@);
        proof {
            reveal(Seq::filter);
            assert(all.take(i + 1).drop_last() =~= all.take(i as int));
            assert(all.take(i + 1).last() == row@);
        }
        if row_passes(&requirement, row) {
            out.push(
                OutputRow {
                    package_name: row.package_name.clone(),
                    dep_version: row.dep_version.clone(),
                    path: row.path.clone(),
                },
            );
            assert(rows_view(out@) =~= before.push(row@));
        }
        i += 1;
    }
    proof {
        assert(all.take(i as int) =~= all);
        if requirement is None {
            lemma_no_filter_keeps_all(all);
        }
    }
    out
}

} // verus!
