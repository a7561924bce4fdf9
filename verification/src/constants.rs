//! The fixed texts the evaluator can answer with, and the view of a trace.

use vstd::prelude::*;

verus! {

/// The view of an evaluation trace: each line as its character sequence.
pub open spec fn trace_view(ts: Seq<String>) -> Seq<Seq<char>> {
    ts.map_values(|s: String| s@)
}

pub proof fn lemma_trace_view_push(ts: Seq<String>, s: String)
    ensures
        trace_view(ts.push(s)) == trace_view(ts).push(s@),
{
    assert(trace_view(ts.push(s)) =~= trace_view(ts).push(s@));
}

/// The version line printed by the `version` keyword.
pub open spec fn version_chars() -> Seq<char> {
    "0.1.0"@
}

/// The help text printed by the `help` keyword, line by line.
pub open spec fn help_chars() -> Seq<Seq<char>> {
    seq![
        "bspl - Bit-Shift-Print Loop"@,
        ""@,
        "Evaluates bitwise expressions over unsigned 32-bit integers."@,
        "Operators: ~ & | ^ << >>, with ( ) for grouping."@,
        "Literals: decimal (42) or hexadecimal (0x2a)."@,
        "Keywords: help, license, version, exit."@,
    ]
}

/// The license text printed by the `license` keyword, line by line.
pub open spec fn license_chars() -> Seq<Seq<char>> {
    seq![
        "This software is distributed under the terms of the MIT license,"@,
        "without any warranty of any kind."@,
    ]
}

pub fn version_text() -> (s: String)
    ensures
        s@ == version_chars(),
{
    String::from_str("0.1.0")
}

pub fn help_lines() -> (v: Vec<String>)
    ensures
        trace_view(v@) == help_chars(),
{
    let mut v: Vec<String> = Vec::new();
    v.push(String::from_str("bspl - Bit-Shift-Print Loop"));
    v.push(String::from_str(""));
    v.push(String::from_str("Evaluates bitwise expressions over unsigned 32-bit integers."));
    v.push(String::from_str("Operators: ~ & | ^ << >>, with ( ) for grouping."));
    v.push(String::from_str("Literals: decimal (42) or hexadecimal (0x2a)."));
    v.push(String::from_str("Keywords: help, license, version, exit."));
    proof {
        assert(trace_view(v@) =~= help_chars());
    }
    v
}

pub fn license_lines() -> (v: Vec<String>)
    ensures
        trace_view(v@) == license_chars(),
{
    let mut v: Vec<String> = Vec::new();
    v.push(String::from_str("This software is distributed under the terms of the MIT license,"));
    v.push(String::from_str("without any warranty of any kind."));
    proof {
        assert(trace_view(v@) =~= license_chars());
    }
    v
}

} // verus!
