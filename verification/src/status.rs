//! Subtest status markers: the closed set of outcomes and the rules for
//! reading one out of the text a test runner left in its status file.

use vstd::prelude::*;
use crate::bytes::{contains_seq, contains_bytes};

verus! {

/// Outcome of one subtest on one commit.
#[derive(Clone, Copy, Debug, PartialEq, Eq, Structural)]
pub enum TestStatus {
    Inprogress,
    Passed,
    Failed,
    Notrun,
    Notstarted,
    Unknown,
}

pub open spec fn pat_in_progress() -> Seq<u8> {
    seq![73u8, 78u8, 32u8, 80u8, 82u8, 79u8, 71u8, 82u8, 69u8, 83u8, 83u8]
}

pub open spec fn pat_passed() -> Seq<u8> {
    seq![80u8, 65u8, 83u8, 83u8, 69u8, 68u8]
}

pub open spec fn pat_failed() -> Seq<u8> {
    seq![70u8, 65u8, 73u8, 76u8, 69u8, 68u8]
}

pub open spec fn pat_notrun() -> Seq<u8> {
    seq![78u8, 79u8, 84u8, 82u8, 85u8, 78u8]
}

pub open spec fn pat_not_started() -> Seq<u8> {
    seq![78u8, 79u8, 84u8, 32u8, 83u8, 84u8, 65u8, 82u8, 84u8, 69u8, 68u8]
}

/// The status that marker text `s` denotes: empty means a test has claimed
/// the slot but reported nothing yet; otherwise the first matching keyword
/// in this fixed order decides.
pub open spec fn spec_status_of(s: Seq<u8>) -> TestStatus {
    if s.len() == 0 {
        TestStatus::Inprogress
    } else if contains_seq(s, pat_in_progress()) {
        TestStatus::Inprogress
    } else if contains_seq(s, pat_passed()) {
        TestStatus::Passed
    } else if contains_seq(s, pat_failed()) {
        TestStatus::Failed
    } else if contains_seq(s, pat_notrun()) {
        TestStatus::Notrun
    } else if contains_seq(s, pat_not_started()) {
        TestStatus::Notstarted
    } else {
        TestStatus::Unknown
    }
}

fn keyword_in_progress() -> (v: Vec<u8>)
    ensures
        v@ == pat_in_progress(),
{
    let mut v: Vec<u8> = Vec::new();
    v.push(73);
    v.push(78);
    v.push(32);
    v.push(80);
    v.push(82);
    v.push(79);
    v.push(71);
    v.push(82);
    v.push(69);
    v.push(83);
    v.push(83);
    assert(v@ =~= pat_in_progress());
    v
}

fn keyword_passed() -> (v: Vec<u8>)
    ensures
        v@ == pat_passed(),
{
    let mut v: Vec<u8> = Vec::new();
    v.push(80);
    v.push(65);
    v.push(83);
    v.push(83);
    v.push(69);
    v.push(68);
    assert(v@ =~= pat_passed());
    v
}

fn keyword_failed() -> (v: Vec<u8>)
    ensures
        v@ == pat_failed(),
{
    let mut v: Vec<u8> = Vec::new();
    v.push(70);
    v.push(65);
    v.push(73);
    v.push(76);
    v.push(69);
    v.push(68);
    assert(v@ =~= pat_failed());
    v
}

fn keyword_notrun() -> (v: Vec<u8>)
    ensures
        v@ == pat_notrun(),
{
    let mut v: Vec<u8> = Vec::new();
    v.push(78);
    v.push(79);
    v.push(84);
    v.push(82);
    v.push(85);
    v.push(78);
    assert(v@ =~= pat_notrun());
    v
}

fn keyword_not_started() -> (v: Vec<u8>)
    ensures
        v@ == pat_not_started(),
{
    let mut v: Vec<u8> = Vec::new();
    v.push(78);
    v.push(79);
    v.push(84);
    v.push(32);
    v.push(83);
    v.push(84);
    v.push(65);
    v.push(82);
    v.push(84);
    v.push(69);
    v.push(68);
    assert(v@ =~= pat_not_started());
    v
}

impl TestStatus {
    /// Read a status out of the raw marker text.
    pub fn from_str(status: &[u8]) -> (r: TestStatus)
        ensures
            r == spec_status_of(status@),
    {
        if status.len() == 0 {
            TestStatus::Inprogress
        } else if contains_bytes(status, keyword_in_progress().as_slice()) {
            TestStatus::Inprogress
        } else if contains_bytes(status, keyword_passed().as_slice()) {
            TestStatus::Passed
        } else if contains_bytes(status, keyword_failed().as_slice()) {
            TestStatus::Failed
        } else if contains_bytes(status, keyword_notrun().as_slice()) {
            TestStatus::Notrun
        } else if contains_bytes(status, keyword_not_started().as_slice()) {
            TestStatus::Notstarted
        } else {
            TestStatus::Unknown
        }
    }

    /// Human-readable label.
    pub fn to_str(&self) -> (r: &'static str)
        ensures
            r@ == match self {
                TestStatus::Inprogress => "In progress"@,
                TestStatus::Passed => "Passed"@,
                TestStatus::Failed => "Failed"@,
                TestStatus::Notrun => "Not run"@,
                TestStatus::Notstarted => "Not started"@,
                TestStatus::Unknown => "Unknown"@,
            },
    {
        match self {
            TestStatus::Inprogress => "In progress",
            TestStatus::Passed => "Passed",
            TestStatus::Failed => "Failed",
            TestStatus::Notrun => "Not run",
            TestStatus::Notstarted => "Not started",
            TestStatus::Unknown => "Unknown",
        }
    }

    /// CSS table class used when rendering this status.
    pub fn table_class(&self) -> (r: &'static str)
        ensures
            r@ == match self {
                TestStatus::Passed => "table-success"@,
                TestStatus::Failed => "table-danger"@,
                _ => "table-secondary"@,
            },
    {
        match self {
            TestStatus::Inprogress => "table-secondary",
            TestStatus::Passed => "table-success",
            TestStatus::Failed => "table-danger",
            TestStatus::Notrun => "table-secondary",
            TestStatus::Notstarted => "table-secondary",
            TestStatus::Unknown => "table-secondary",
        }
    }
}

} // verus!
